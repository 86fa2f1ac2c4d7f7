use kernel::allocator::{virtual_alloc_init, BumpAllocator, VirtualAlloc};
use kernel::aspace::{VmAspace, VmAspaceType};
use kernel::boot::BootContext;
use kernel::errors::ErrNO;
use kernel::klib::list::List;
use kernel::pmm::{paddr_to_vm_page, pmm_add_arena, pmm_alloc_range, ArenaInfo, PmmNode};
use kernel::vm_page_state;

const MIB: usize = 1024 * 1024;
const PAGE: usize = 4096;
const ARENA: usize = 0x8000_0000;
const REGION: usize = 0x1000_0000;

fn parts() -> (VirtualAlloc, PmmNode, VmAspace) {
    let mut pmm = PmmNode::new();
    pmm.init();
    assert_eq!(pmm_add_arena(&mut pmm, ArenaInfo::new("ram", 0, ARENA, 16 * MIB), &Vec::new()), Ok(()));
    let aspace = VmAspace::new(0, VmAspaceType::Kernel, REGION, 64 * MIB);
    (VirtualAlloc::new(vm_page_state::HEAP), pmm, aspace)
}

fn ready() -> (VirtualAlloc, PmmNode, VmAspace) {
    let (mut va, mut pmm, mut aspace) = parts();
    assert_eq!(va.init(REGION, MIB, 1, 12, &mut pmm, &mut aspace), Ok(()));
    (va, pmm, aspace)
}

#[test]
fn init_then_four_pages_between_guards() {
    let (mut va, mut pmm, mut aspace) = ready();
    assert_eq!(va.alloc_base(), REGION);
    assert_eq!(va.region_pages(), 256);
    assert_eq!(va.bitmap_pages(), 1);
    assert_eq!(va.next_search_start(), 1);
    assert!(va.is_page_allocated(0));
    assert!(!va.is_page_allocated(1));
    let addr = va.alloc_pages(4, &mut pmm, &mut aspace).unwrap();
    // The run starts behind the bitmap's page and a guard page.
    assert_eq!(addr, REGION + 2 * PAGE);
    let start = (addr - REGION) / PAGE;
    assert!(!va.is_page_allocated(start - 1));
    for i in start..start + 4 {
        assert!(va.is_page_allocated(i));
    }
    assert!(!va.is_page_allocated(start + 4));
    assert_eq!(va.next_search_start(), start + 4);
    // The pages are mapped to pages of the arena in the state of the heap.
    for i in 0..4 {
        let (pa, prot) = aspace.query(addr + i * PAGE).unwrap();
        assert_eq!(pa, ARENA + (1 + i) * PAGE);
        assert_eq!(prot, 231);
        assert_eq!(paddr_to_vm_page(&pmm, pa).unwrap().state(), vm_page_state::HEAP);
    }
    assert_eq!(aspace.query(addr + 4 * PAGE), Err(ErrNO::NotFound));
}

#[test]
fn guard_behind_one_run_is_the_guard_before_the_next() {
    let (mut va, mut pmm, mut aspace) = ready();
    let a = va.alloc_pages(4, &mut pmm, &mut aspace).unwrap();
    let b = va.alloc_pages(2, &mut pmm, &mut aspace).unwrap();
    assert_eq!(a, REGION + 2 * PAGE);
    assert_eq!(b, REGION + 7 * PAGE);
    assert!(!va.is_page_allocated(6));
}

#[test]
fn alloc_then_free_restores_bitmap_and_free_count() {
    let (mut va, mut pmm, mut aspace) = ready();
    let first = va.alloc_pages(3, &mut pmm, &mut aspace).unwrap();
    let before_count = pmm.free_count();
    let before_bits: Vec<bool> = (0..256).map(|i| va.is_page_allocated(i)).collect();
    let before_start = va.next_search_start();
    let addr = va.alloc_pages(5, &mut pmm, &mut aspace).unwrap();
    assert_eq!(pmm.free_count(), before_count - 5);
    assert_eq!(va.free_pages(addr, 5, &mut pmm, &mut aspace), Ok(()));
    assert_eq!(pmm.free_count(), before_count);
    let after_bits: Vec<bool> = (0..256).map(|i| va.is_page_allocated(i)).collect();
    assert_eq!(before_bits, after_bits);
    assert_eq!(va.next_search_start(), before_start);
    assert_eq!(aspace.query(addr), Err(ErrNO::NotFound));
    // The same spot is found again.
    assert_eq!(va.alloc_pages(5, &mut pmm, &mut aspace), Ok(addr));
    assert_eq!(va.free_pages(first, 3, &mut pmm, &mut aspace), Ok(()));
}

#[test]
fn free_moves_the_search_start_back_over_free_guards() {
    let (mut va, mut pmm, mut aspace) = ready();
    let a = va.alloc_pages(4, &mut pmm, &mut aspace).unwrap();
    assert_eq!(va.next_search_start(), 6);
    assert_eq!(va.free_pages(a, 4, &mut pmm, &mut aspace), Ok(()));
    // Page 1 is free, page 0 is the bitmap's.
    assert_eq!(va.next_search_start(), 1);
}

#[test]
fn a_run_that_was_freed_cannot_be_freed_again() {
    let (mut va, mut pmm, mut aspace) = ready();
    let a = va.alloc_pages(2, &mut pmm, &mut aspace).unwrap();
    let b = va.alloc_pages(2, &mut pmm, &mut aspace).unwrap();
    assert!(va.can_free_pages(a, 2));
    assert!(va.can_free_pages(a + PAGE, 1));
    assert_eq!(va.free_pages(a, 2, &mut pmm, &mut aspace), Ok(()));
    assert!(!va.can_free_pages(a, 2));
    assert!(!va.can_free_pages(a, 1));
    // A run that is only partly allocated cannot be freed either.
    assert!(!va.can_free_pages(b - PAGE, 3));
    assert!(!va.can_free_pages(b, 3));
    assert!(va.can_free_pages(b, 2));
    assert!(aspace.query(b).is_ok());
    assert!(va.is_page_allocated((b - REGION) / PAGE));
}

#[test]
fn only_whole_pages_of_the_region_behind_the_bitmap_can_be_freed() {
    let (mut va, mut pmm, mut aspace) = ready();
    let a = va.alloc_pages(2, &mut pmm, &mut aspace).unwrap();
    assert!(!va.can_free_pages(a, 0));
    assert!(!va.can_free_pages(a + 1, 1));
    assert!(!va.can_free_pages(REGION - PAGE, 1));
    // The pages of the bitmap itself.
    assert!(!va.can_free_pages(REGION, 1));
    assert!(!va.can_free_pages(a, 1000));
    assert!(!va.can_free_pages(a, usize::MAX));
    assert!(va.can_free_pages(a, 2));
    // An allocator that was not initialized has nothing to free.
    let (fresh, _pmm2, _aspace2) = parts();
    assert!(!fresh.can_free_pages(REGION, 1));
}

#[test]
fn alloc_rejects_bad_requests() {
    let (mut va, mut pmm, mut aspace) = ready();
    assert_eq!(va.alloc_pages(0, &mut pmm, &mut aspace), Err(ErrNO::InvalidArgs));
    // 256 pages less the bitmap's page and two guards is the most.
    assert_eq!(va.alloc_pages(254, &mut pmm, &mut aspace), Err(ErrNO::NoMem));
    assert_eq!(va.alloc_pages(253, &mut pmm, &mut aspace), Ok(REGION + 2 * PAGE));
    assert_eq!(va.alloc_pages(1, &mut pmm, &mut aspace), Err(ErrNO::NoMem));
    let (mut fresh, mut pmm2, mut aspace2) = parts();
    assert_eq!(fresh.alloc_pages(1, &mut pmm2, &mut aspace2), Err(ErrNO::BadState));
}

#[test]
fn alloc_fails_cleanly_when_physical_pages_run_out() {
    let mut pmm = PmmNode::new();
    pmm.init();
    // 64 pages, one of which hosts the descriptors.
    assert_eq!(pmm_add_arena(&mut pmm, ArenaInfo::new("ram", 0, ARENA, 64 * PAGE), &Vec::new()), Ok(()));
    let mut aspace = VmAspace::new(0, VmAspaceType::Kernel, REGION, 64 * MIB);
    let mut va = VirtualAlloc::new(vm_page_state::HEAP);
    assert_eq!(va.init(REGION, MIB, 1, 12, &mut pmm, &mut aspace), Ok(()));
    assert_eq!(pmm.free_count(), 62);
    let start = va.next_search_start();
    assert_eq!(va.alloc_pages(63, &mut pmm, &mut aspace), Err(ErrNO::NoMem));
    assert_eq!(pmm.free_count(), 62);
    assert_eq!(va.next_search_start(), start);
    assert!(!va.is_page_allocated(2));
    assert_eq!(va.alloc_pages(62, &mut pmm, &mut aspace), Ok(REGION + 2 * PAGE));
    assert_eq!(pmm.free_count(), 0);
}

#[test]
fn init_rejects_bad_arguments() {
    let (mut va, mut pmm, mut aspace) = parts();
    assert_eq!(va.init(REGION, MIB, 1, 11, &mut pmm, &mut aspace), Err(ErrNO::InvalidArgs));
    // An alignment that is no number of the machine, and one that the
    // region does not have.
    assert_eq!(va.init(REGION, MIB, 1, 64, &mut pmm, &mut aspace), Err(ErrNO::InvalidArgs));
    assert_eq!(va.init(REGION, MIB, 1, 200, &mut pmm, &mut aspace), Err(ErrNO::InvalidArgs));
    assert_eq!(va.init(REGION, MIB, 1, 31, &mut pmm, &mut aspace), Err(ErrNO::InvalidArgs));
    assert_eq!(va.init(REGION, MIB, 1, 21, &mut pmm, &mut aspace), Err(ErrNO::InvalidArgs));
    assert_eq!(va.init(0, MIB, 1, 12, &mut pmm, &mut aspace), Err(ErrNO::InvalidArgs));
    assert_eq!(va.init(REGION, 0, 1, 12, &mut pmm, &mut aspace), Err(ErrNO::InvalidArgs));
    assert_eq!(va.init(REGION + 1, MIB, 1, 12, &mut pmm, &mut aspace), Err(ErrNO::InvalidArgs));
    assert_eq!(va.init(REGION, MIB + 1, 1, 12, &mut pmm, &mut aspace), Err(ErrNO::InvalidArgs));
    assert_eq!(va.init(REGION + PAGE, MIB, 1, 13, &mut pmm, &mut aspace), Err(ErrNO::InvalidArgs));
    assert_eq!(
        va.init(usize::MAX - MIB + 1, MIB, 1, 12, &mut pmm, &mut aspace),
        Err(ErrNO::InvalidArgs)
    );
    // Three pages: the bitmap and two guards leave nothing.
    assert_eq!(va.init(REGION, 3 * PAGE, 1, 12, &mut pmm, &mut aspace), Err(ErrNO::InvalidArgs));
    assert_eq!(va.init(REGION - MIB, MIB, 1, 12, &mut pmm, &mut aspace), Err(ErrNO::OutOfRange));
    assert_eq!(va.alloc_base(), 0);
    assert_eq!(pmm.free_count(), 4096 - 48);
    assert_eq!(va.init(REGION, 4 * PAGE, 1, 12, &mut pmm, &mut aspace), Ok(()));
    assert_eq!(va.init(REGION, 4 * PAGE, 1, 12, &mut pmm, &mut aspace), Err(ErrNO::BadState));
    assert_eq!(va.alloc_pages(1, &mut pmm, &mut aspace), Ok(REGION + 2 * PAGE));
}

#[test]
fn init_rejects_a_region_that_is_mapped_or_cannot_be_backed() {
    let (mut va, mut pmm, mut aspace) = parts();
    assert_eq!(
        aspace.map(REGION + 8 * PAGE, &[ARENA], 1, 8, kernel::aspace::ExistingEntryAction::Error),
        Ok(1)
    );
    assert_eq!(va.init(REGION, MIB, 1, 12, &mut pmm, &mut aspace), Err(ErrNO::AlreadyExists));
    let mut empty = PmmNode::new();
    empty.init();
    let mut aspace2 = VmAspace::new(0, VmAspaceType::Kernel, REGION, 64 * MIB);
    assert_eq!(va.init(REGION, MIB, 1, 12, &mut empty, &mut aspace2), Err(ErrNO::NoMem));
    assert_eq!(va.alloc_base(), 0);
}

#[test]
fn context_initializes_the_region_of_the_heap() {
    let mut ctx = BootContext::new(REGION, 64 * MIB);
    assert_eq!(
        pmm_add_arena(&mut ctx.pmm_node, ArenaInfo::new("ram", 0, ARENA, 16 * MIB), &ctx.reserve_ranges),
        Ok(())
    );
    ctx.kernel_heap_base = REGION;
    ctx.kernel_heap_size = 8 * MIB;
    assert_eq!(virtual_alloc_init(&mut ctx), Ok(()));
    assert_eq!(ctx.virtual_alloc.alloc_base(), REGION);
    assert_eq!(ctx.virtual_alloc.region_pages(), 2048);
    assert_eq!(ctx.virtual_alloc.bitmap_pages(), 1);
}

#[test]
fn bump_allocator_hands_out_front_to_back() {
    let mut bump = BumpAllocator::new();
    assert_eq!(bump.allocate(1, 1), None);
    bump.init(0x1000, 0x100);
    assert_eq!(bump.allocate(10, 8), Some(0x1000));
    assert_eq!(bump.allocate(10, 8), Some(0x1010));
    assert_eq!(bump.allocate(1, 64), Some(0x1040));
    assert_eq!(bump.allocate(0x100, 1), None);
    assert_eq!(bump.allocate(0xbf, 1), Some(0x1041));
    assert_eq!(bump.allocate(1, 1), None);
    bump.deallocate();
    bump.deallocate();
    bump.deallocate();
    assert_eq!(bump.allocate(1, 1), None);
    bump.deallocate();
    // The last allocation is back: the whole range is free again.
    assert_eq!(bump.allocate(0x100, 1), Some(0x1000));
}

fn aligned() -> (VirtualAlloc, PmmNode, VmAspace) {
    let (mut va, mut pmm, mut aspace) = parts();
    // Units of 16 KiB: four pages.
    assert_eq!(va.init(REGION, MIB, 1, 14, &mut pmm, &mut aspace), Ok(()));
    (va, pmm, aspace)
}

#[test]
fn aligned_allocation_starts_at_a_multiple_and_uses_aligned_runs() {
    let (mut va, mut pmm, mut aspace) = aligned();
    // Less than a unit is placed where it fits first.
    assert_eq!(va.alloc_pages(2, &mut pmm, &mut aspace), Ok(REGION + 2 * PAGE));
    assert_eq!(aspace.query(REGION + 2 * PAGE).unwrap().0, ARENA + PAGE);
    assert_eq!(aspace.query(REGION + 3 * PAGE).unwrap().0, ARENA + 2 * PAGE);
    let free = pmm.free_count();
    // Two units and a page: at the next multiple of four behind a guard.
    let addr = va.alloc_pages(9, &mut pmm, &mut aspace).unwrap();
    assert_eq!(addr, REGION + 8 * PAGE);
    assert_eq!(addr % (4 * PAGE), 0);
    assert_eq!(va.next_search_start(), 17);
    for i in 4..8 {
        assert!(!va.is_page_allocated(i));
    }
    for i in 8..17 {
        assert!(va.is_page_allocated(i));
    }
    assert!(!va.is_page_allocated(17));
    assert_eq!(pmm.free_count(), free - 9);
    // Each unit is backed by a run of 16 KiB at a multiple of 16 KiB,
    // the lowest first; the last page comes from the head of the free list.
    for i in 0..4 {
        assert_eq!(aspace.query(addr + i * PAGE).unwrap().0, ARENA + (4 + i) * PAGE);
        assert_eq!(aspace.query(addr + (4 + i) * PAGE).unwrap().0, ARENA + (8 + i) * PAGE);
    }
    assert_eq!(aspace.query(addr + 8 * PAGE).unwrap().0, ARENA + 3 * PAGE);
    for i in 0..9 {
        let pa = aspace.query(addr + i * PAGE).unwrap().0;
        assert_eq!(paddr_to_vm_page(&pmm, pa).unwrap().state(), vm_page_state::HEAP);
    }
    // Freeing restores the bitmap and the number of free pages.
    assert_eq!(va.free_pages(addr, 9, &mut pmm, &mut aspace), Ok(()));
    assert_eq!(pmm.free_count(), free);
    for i in 4..18 {
        assert!(!va.is_page_allocated(i));
    }
    assert_eq!(paddr_to_vm_page(&pmm, ARENA + 4 * PAGE).unwrap().state(), vm_page_state::FREE);
}

#[test]
fn aligned_allocation_without_an_aligned_run_changes_nothing() {
    let (mut va, mut pmm, mut aspace) = aligned();
    // Leave one aligned run of four free pages, and none behind it.
    let mut taken = List::new();
    taken.init();
    for i in 2..1012 {
        assert_eq!(pmm_alloc_range(&mut pmm, ARENA + (4 * i + 1) * PAGE, 1, &mut taken), Ok(()));
    }
    let free = pmm.free_count();
    let bits: Vec<bool> = (0..256).map(|i| va.is_page_allocated(i)).collect();
    let start = va.next_search_start();
    // The first unit is to be had, the second is not.
    assert_eq!(va.alloc_pages(8, &mut pmm, &mut aspace), Err(ErrNO::NoMem));
    assert_eq!(pmm.free_count(), free);
    assert_eq!(va.next_search_start(), start);
    let after: Vec<bool> = (0..256).map(|i| va.is_page_allocated(i)).collect();
    assert_eq!(bits, after);
    for i in 4..8 {
        assert_eq!(paddr_to_vm_page(&pmm, ARENA + i * PAGE).unwrap().state(), vm_page_state::FREE);
    }
    assert_eq!(aspace.query(REGION + 4 * PAGE), Err(ErrNO::NotFound));
    // One unit is still to be had, and three pages more.
    assert_eq!(va.alloc_pages(7, &mut pmm, &mut aspace), Ok(REGION + 4 * PAGE));
    assert_eq!(aspace.query(REGION + 4 * PAGE).unwrap().0, ARENA + 4 * PAGE);
    assert_eq!(aspace.query(REGION + 7 * PAGE).unwrap().0, ARENA + 7 * PAGE);
    assert_eq!(pmm.free_count(), free - 7);
}

#[test]
fn aligned_allocation_needs_an_aligned_place_in_the_region() {
    let (mut va, mut pmm, mut aspace) = aligned();
    // Of 256 pages, 251 and the guard behind them fit at page 4 and at
    // no later multiple of four.
    assert_eq!(va.alloc_pages(252, &mut pmm, &mut aspace), Err(ErrNO::NoMem));
    assert_eq!(va.alloc_pages(251, &mut pmm, &mut aspace), Ok(REGION + 4 * PAGE));
    assert_eq!(va.alloc_pages(1, &mut pmm, &mut aspace), Ok(REGION + 2 * PAGE));
    assert_eq!(va.alloc_pages(1, &mut pmm, &mut aspace), Err(ErrNO::NoMem));
}

/// The shortest run of free pages between two runs of allocated pages.
fn shortest_gap(va: &VirtualAlloc, pages: usize) -> Option<usize> {
    let bits: Vec<bool> = (0..pages).map(|i| va.is_page_allocated(i)).collect();
    let mut shortest = None;
    let mut last_set = None;
    for (i, bit) in bits.iter().enumerate() {
        if *bit {
            if let Some(last) = last_set {
                if i > last + 1 {
                    let gap = i - last - 1;
                    shortest = Some(shortest.map_or(gap, |s: usize| s.min(gap)));
                }
            }
            last_set = Some(i);
        }
    }
    shortest
}

#[test]
fn runs_of_allocated_pages_stay_apart_by_the_guard() {
    let (mut va, mut pmm, mut aspace) = parts();
    assert_eq!(va.init(REGION, MIB, 3, 12, &mut pmm, &mut aspace), Ok(()));
    assert_eq!(shortest_gap(&va, 256), None);
    let a = va.alloc_pages(5, &mut pmm, &mut aspace).unwrap();
    let b = va.alloc_pages(1, &mut pmm, &mut aspace).unwrap();
    let c = va.alloc_pages(7, &mut pmm, &mut aspace).unwrap();
    let d = va.alloc_pages(2, &mut pmm, &mut aspace).unwrap();
    assert_eq!(a, REGION + 4 * PAGE);
    assert_eq!(b, a + 8 * PAGE);
    assert_eq!(c, b + 4 * PAGE);
    assert_eq!(shortest_gap(&va, 256), Some(3));
    // Freeing whole runs and allocating in what they leave keeps the
    // runs apart.
    assert_eq!(va.free_pages(b, 1, &mut pmm, &mut aspace), Ok(()));
    assert_eq!(shortest_gap(&va, 256), Some(3));
    assert_eq!(va.alloc_pages(1, &mut pmm, &mut aspace), Ok(b));
    assert_eq!(va.free_pages(c, 7, &mut pmm, &mut aspace), Ok(()));
    assert_eq!(shortest_gap(&va, 256), Some(3));
    let e = va.alloc_pages(3, &mut pmm, &mut aspace).unwrap();
    let f = va.alloc_pages(2, &mut pmm, &mut aspace).unwrap();
    assert_eq!(e, c);
    assert_eq!(f, d + 5 * PAGE);
    assert_eq!(shortest_gap(&va, 256), Some(3));
    // Freeing a part of a run leaves a gap of any length.
    assert_eq!(va.free_pages(a + 2 * PAGE, 1, &mut pmm, &mut aspace), Ok(()));
    assert_eq!(shortest_gap(&va, 256), Some(1));
}

#[test]
fn a_refused_aligned_allocation_leaves_the_runs_it_took_at_the_tail() {
    let (mut va, mut pmm, mut aspace) = aligned();
    let mut taken = List::new();
    taken.init();
    for i in 2..1012 {
        assert_eq!(pmm_alloc_range(&mut pmm, ARENA + (4 * i + 1) * PAGE, 1, &mut taken), Ok(()));
    }
    let free = pmm.free_count();
    // The first unit is taken and put back when the second is not to be
    // had.
    assert_eq!(va.alloc_pages(8, &mut pmm, &mut aspace), Err(ErrNO::NoMem));
    let mut all = List::new();
    all.init();
    assert_eq!(pmm.alloc_pages(free, 0, &mut all), Ok(()));
    let order = all.iter();
    assert_eq!(order[..3], [ARENA + PAGE, ARENA + 2 * PAGE, ARENA + 3 * PAGE]);
    assert_eq!(order[3], ARENA + 8 * PAGE);
    assert_eq!(
        order[free - 4..],
        [ARENA + 4 * PAGE, ARENA + 5 * PAGE, ARENA + 6 * PAGE, ARENA + 7 * PAGE]
    );
}
