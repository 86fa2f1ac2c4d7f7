use kernel::errors::ErrNO;
use kernel::klib::list::List;
use kernel::page::vm_page;
use kernel::platform::boot_reserve::{boot_reserve_add_range, BootReserveRange};
use kernel::platform::boot_reserve_wire;
use kernel::pmm::{
    paddr_to_vm_page, pmm_add_arena, pmm_alloc_contiguous, pmm_alloc_page, pmm_alloc_pages,
    pmm_alloc_range, pmm_free, pmm_page_queues, ArenaInfo, PmmNode,
};
use kernel::vm::page_queues::{PAGE_QUEUE_ANONYMOUS, PAGE_QUEUE_WIRED};
use kernel::vm::vm::mark_pages_in_use;
use kernel::vm_page_state;

const MIB: usize = 1024 * 1024;
const PAGE: usize = 4096;
const BASE: usize = 0x8000_0000;

fn node_with_arena(res: &Vec<BootReserveRange>) -> PmmNode {
    let mut node = PmmNode::new();
    node.init();
    assert_eq!(pmm_add_arena(&mut node, ArenaInfo::new("ram", 0, BASE, 16 * MIB), res), Ok(()));
    node
}

fn state(node: &PmmNode, pa: usize) -> u8 {
    paddr_to_vm_page(node, pa).unwrap().state()
}

fn list() -> List<vm_page> {
    let mut l = List::new();
    l.init();
    l
}

#[test]
fn one_arena_of_16_mib_has_4096_descriptors() {
    let res = Vec::new();
    let node = node_with_arena(&res);
    let arenas = node.get_arenas();
    assert_eq!(arenas.len(), 1);
    assert_eq!(arenas[0].base(), BASE);
    assert_eq!(arenas[0].size(), 16 * MIB);
    assert_eq!(arenas[0].name(), "ram");
    // 4096 descriptors of 48 bytes take 48 pages, hosted at the top.
    let array_start = 4096 - 48;
    let mut descriptors = 0;
    for i in 0..4096 {
        let page = paddr_to_vm_page(&node, BASE + i * PAGE).unwrap();
        descriptors += 1;
        assert_eq!(page.paddr(), BASE + i * PAGE);
        if i >= array_start {
            assert_eq!(page.state(), vm_page_state::WIRED);
            assert!(!page.is_free());
        } else {
            assert_eq!(page.state(), vm_page_state::FREE);
            assert!(page.is_free());
        }
        assert!(!page.is_loaned());
    }
    assert_eq!(descriptors, 4096);
    assert!(paddr_to_vm_page(&node, BASE + 16 * MIB).is_none());
    assert!(paddr_to_vm_page(&node, BASE - 1).is_none());
    assert_eq!(node.free_count(), 4096 - 48);
}

#[test]
fn every_page_but_those_of_the_array_is_on_the_free_list_once() {
    let res = Vec::new();
    let mut node = node_with_arena(&res);
    let mut l = list();
    assert_eq!(pmm_alloc_pages(&mut node, 4096 - 48, 0, &mut l), Ok(()));
    let expected: Vec<usize> = (0..4096 - 48).map(|i| BASE + i * PAGE).collect();
    assert_eq!(l.iter(), expected);
    assert_eq!(node.free_count(), 0);
}

#[test]
fn reserved_pages_are_free_until_they_are_wired() {
    let mut res = Vec::new();
    // Three pages in the middle, and one page and a bit at the very top.
    assert!(boot_reserve_add_range(&mut res, BASE + 100 * PAGE, 3 * PAGE).is_ok());
    assert!(boot_reserve_add_range(&mut res, BASE + 16 * MIB - PAGE - 8, PAGE + 8).is_ok());
    let mut node = node_with_arena(&res);
    // The array cannot sit on the reserved top pages: it moves down.
    assert_eq!(node.free_count(), 4096 - 48);
    assert_eq!(state(&node, BASE + 100 * PAGE), vm_page_state::FREE);
    assert_eq!(state(&node, BASE + 102 * PAGE), vm_page_state::FREE);
    assert_eq!(state(&node, BASE + 4095 * PAGE), vm_page_state::FREE);
    assert_eq!(state(&node, BASE + 4094 * PAGE), vm_page_state::FREE);
    assert_eq!(state(&node, BASE + 4093 * PAGE), vm_page_state::WIRED);
    assert_eq!(state(&node, BASE + (4094 - 48) * PAGE), vm_page_state::WIRED);
    assert_eq!(state(&node, BASE + (4094 - 49) * PAGE), vm_page_state::FREE);
    // Wiring takes the pages of the reservations off the free list.
    let mut reserved = list();
    assert_eq!(boot_reserve_wire(&mut node, &res, &mut reserved), Ok(()));
    assert_eq!(
        reserved.iter(),
        vec![
            BASE + 100 * PAGE,
            BASE + 101 * PAGE,
            BASE + 102 * PAGE,
            BASE + 4094 * PAGE,
            BASE + 4095 * PAGE
        ]
    );
    assert_eq!(node.free_count(), 4096 - 48 - 5);
    for i in [100, 101, 102, 4094, 4095] {
        assert_eq!(state(&node, BASE + i * PAGE), vm_page_state::WIRED);
    }
    assert_eq!(state(&node, BASE + 99 * PAGE), vm_page_state::FREE);
    assert_eq!(state(&node, BASE + 103 * PAGE), vm_page_state::FREE);
    // The pages are never handed out.
    let mut l = list();
    assert_eq!(pmm_alloc_pages(&mut node, 4096 - 48 - 5, 0, &mut l), Ok(()));
    assert!(!l.iter().contains(&(BASE + 101 * PAGE)));
    assert_eq!(pmm_alloc_page(&mut node, 0), None);
    // Wiring again finds the pages taken.
    assert_eq!(boot_reserve_wire(&mut node, &res, &mut reserved), Err(ErrNO::NotFound));
    assert_eq!(reserved.len(), 5);
}

#[test]
fn wiring_stops_at_the_first_reservation_that_is_not_free() {
    let mut res = Vec::new();
    assert!(boot_reserve_add_range(&mut res, BASE + 10 * PAGE + 16, 2 * PAGE).is_ok());
    assert!(boot_reserve_add_range(&mut res, BASE + 20 * PAGE, PAGE).is_ok());
    assert!(boot_reserve_add_range(&mut res, BASE + 30 * PAGE, PAGE).is_ok());
    let mut node = node_with_arena(&res);
    assert_eq!(pmm_alloc_range(&mut node, BASE + 20 * PAGE, 1, &mut list()), Ok(()));
    let mut reserved = list();
    assert_eq!(boot_reserve_wire(&mut node, &res, &mut reserved), Err(ErrNO::NotFound));
    // The pages of the first reservation, as many as its length in
    // pages from the page it starts in, stay allocated; nothing is wired.
    assert!(reserved.empty());
    assert_eq!(state(&node, BASE + 10 * PAGE), vm_page_state::ALLOC);
    assert_eq!(state(&node, BASE + 11 * PAGE), vm_page_state::ALLOC);
    assert_eq!(state(&node, BASE + 12 * PAGE), vm_page_state::FREE);
    assert_eq!(state(&node, BASE + 30 * PAGE), vm_page_state::FREE);
    assert_eq!(node.free_count(), 4096 - 48 - 3);
    // A reservation outside every arena cannot be wired, one of no
    // reservations can.
    let mut outside = Vec::new();
    assert!(boot_reserve_add_range(&mut outside, BASE - MIB, PAGE).is_ok());
    assert_eq!(boot_reserve_wire(&mut node, &outside, &mut reserved), Err(ErrNO::NotFound));
    assert_eq!(boot_reserve_wire(&mut node, &Vec::new(), &mut reserved), Ok(()));
    assert!(reserved.empty());
}

#[test]
fn add_arena_rejects_misaligned_and_empty() {
    let res = Vec::new();
    let mut node = PmmNode::new();
    node.init();
    assert_eq!(
        pmm_add_arena(&mut node, ArenaInfo::new("a", 0, BASE + 1, MIB), &res),
        Err(ErrNO::BadAlign)
    );
    assert_eq!(
        pmm_add_arena(&mut node, ArenaInfo::new("a", 0, BASE, MIB + 1), &res),
        Err(ErrNO::BadAlign)
    );
    assert_eq!(pmm_add_arena(&mut node, ArenaInfo::new("a", 0, BASE, 0), &res), Err(ErrNO::BadAlign));
    assert_eq!(node.free_count(), 0);
    assert_eq!(node.get_arenas().len(), 0);
}

#[test]
fn add_arena_rejects_one_that_cannot_host_its_array() {
    let res = Vec::new();
    let mut node = PmmNode::new();
    node.init();
    assert_eq!(
        pmm_add_arena(&mut node, ArenaInfo::new("tiny", 0, BASE, PAGE), &res),
        Err(ErrNO::LackBuf)
    );
}

#[test]
fn add_arena_rejects_one_that_is_all_reserved() {
    let mut res = Vec::new();
    assert!(boot_reserve_add_range(&mut res, BASE, MIB).is_ok());
    let mut node = PmmNode::new();
    node.init();
    assert_eq!(
        pmm_add_arena(&mut node, ArenaInfo::new("taken", 0, BASE, MIB), &res),
        Err(ErrNO::OutOfRange)
    );
}

#[test]
fn add_arena_rejects_overlap_and_overflow() {
    let res = Vec::new();
    let mut node = node_with_arena(&res);
    assert_eq!(
        pmm_add_arena(&mut node, ArenaInfo::new("again", 0, BASE + MIB, MIB), &res),
        Err(ErrNO::BadRange)
    );
    assert_eq!(
        pmm_add_arena(&mut node, ArenaInfo::new("wrap", 0, usize::MAX - PAGE + 1, 2 * PAGE), &res),
        Err(ErrNO::BadRange)
    );
    assert_eq!(node.get_arenas().len(), 1);
}

#[test]
fn arenas_are_kept_in_ascending_order() {
    let res = Vec::new();
    let mut node = node_with_arena(&res);
    assert!(pmm_add_arena(&mut node, ArenaInfo::new("low", 0, 0x4000_0000, MIB), &res).is_ok());
    assert!(pmm_add_arena(&mut node, ArenaInfo::new("high", 0, 0xa000_0000, MIB), &res).is_ok());
    assert!(pmm_add_arena(&mut node, ArenaInfo::new("mid", 0, 0x6000_0000, MIB), &res).is_ok());
    let bases: Vec<usize> = node.get_arenas().iter().map(|a| a.base()).collect();
    assert_eq!(bases, vec![0x4000_0000, 0x6000_0000, 0x8000_0000, 0xa000_0000]);
    // A mebibyte has 256 pages, whose descriptors take three of them.
    assert_eq!(node.free_count(), 4096 - 48 + 3 * 253);
    assert_eq!(state(&node, 0x6000_0000), vm_page_state::FREE);
    assert_eq!(state(&node, 0x6000_0000 + 252 * PAGE), vm_page_state::FREE);
    assert_eq!(state(&node, 0x6000_0000 + 253 * PAGE), vm_page_state::WIRED);
    assert_eq!(state(&node, 0x6000_0000 + 255 * PAGE), vm_page_state::WIRED);
}

#[test]
fn alloc_page_takes_the_lowest_page_first() {
    let res = Vec::new();
    let mut node = node_with_arena(&res);
    assert_eq!(pmm_alloc_page(&mut node, 0), Some(BASE));
    assert_eq!(pmm_alloc_page(&mut node, 0), Some(BASE + PAGE));
    assert_eq!(state(&node, BASE), vm_page_state::ALLOC);
    assert_eq!(state(&node, BASE + 2 * PAGE), vm_page_state::FREE);
    assert_eq!(node.free_count(), 4096 - 48 - 2);
}

#[test]
fn alloc_page_of_an_empty_node_gives_nothing() {
    let mut node = PmmNode::new();
    node.init();
    assert_eq!(pmm_alloc_page(&mut node, 0), None);
}

#[test]
fn alloc_pages_is_all_or_nothing() {
    let res = Vec::new();
    let mut node = node_with_arena(&res);
    let mut l = list();
    assert_eq!(pmm_alloc_pages(&mut node, 4096 - 48 + 1, 0, &mut l), Err(ErrNO::NoMem));
    assert!(l.empty());
    assert_eq!(node.free_count(), 4096 - 48);
    assert_eq!(pmm_alloc_pages(&mut node, 0, 0, &mut l), Ok(()));
    assert!(l.empty());
    assert_eq!(pmm_alloc_pages(&mut node, 3, 0, &mut l), Ok(()));
    assert_eq!(l.iter(), vec![BASE, BASE + PAGE, BASE + 2 * PAGE]);
    assert_eq!(node.free_count(), 4096 - 48 - 3);
    assert_eq!(pmm_alloc_pages(&mut node, 4096 - 48 - 3, 0, &mut l), Ok(()));
    assert_eq!(node.free_count(), 0);
    assert_eq!(pmm_alloc_page(&mut node, 0), None);
}

#[test]
fn alloc_range_takes_specific_pages() {
    let res = Vec::new();
    let mut node = node_with_arena(&res);
    let mut l = list();
    // The address is rounded down to its page.
    assert_eq!(pmm_alloc_range(&mut node, BASE + 10 * PAGE + 7, 3, &mut l), Ok(()));
    assert_eq!(l.iter(), vec![BASE + 10 * PAGE, BASE + 11 * PAGE, BASE + 12 * PAGE]);
    assert_eq!(state(&node, BASE + 10 * PAGE), vm_page_state::ALLOC);
    assert_eq!(state(&node, BASE + 13 * PAGE), vm_page_state::FREE);
    assert_eq!(node.free_count(), 4096 - 48 - 3);
    // The pages that are left come out in order, without the taken ones.
    for i in 0..10 {
        assert_eq!(pmm_alloc_page(&mut node, 0), Some(BASE + i * PAGE));
    }
    assert_eq!(pmm_alloc_page(&mut node, 0), Some(BASE + 13 * PAGE));
}

#[test]
fn alloc_range_is_all_or_nothing() {
    let res = Vec::new();
    let mut node = node_with_arena(&res);
    let mut l = list();
    assert_eq!(pmm_alloc_range(&mut node, BASE + 5 * PAGE, 1, &mut l), Ok(()));
    let mut m = list();
    // Pages 3 and 4 are free, page 5 is not.
    assert_eq!(pmm_alloc_range(&mut node, BASE + 3 * PAGE, 3, &mut m), Err(ErrNO::NotFound));
    assert!(m.empty());
    assert_eq!(state(&node, BASE + 3 * PAGE), vm_page_state::FREE);
    assert_eq!(state(&node, BASE + 4 * PAGE), vm_page_state::FREE);
    assert_eq!(node.free_count(), 4096 - 48 - 1);
    // A run that leaves the arena, or reaches the wired pages.
    assert_eq!(pmm_alloc_range(&mut node, BASE - PAGE, 2, &mut m), Err(ErrNO::NotFound));
    assert_eq!(pmm_alloc_range(&mut node, BASE + 4040 * PAGE, 20, &mut m), Err(ErrNO::NotFound));
    assert_eq!(pmm_alloc_range(&mut node, 0, 0, &mut m), Ok(()));
    assert!(m.empty());
}

#[test]
fn freed_pages_join_the_tail_of_the_free_list() {
    let res = Vec::new();
    let mut node = node_with_arena(&res);
    let mut l = list();
    assert_eq!(pmm_alloc_pages(&mut node, 2, 0, &mut l), Ok(()));
    assert_eq!(pmm_free(&mut node, &l), Ok(()));
    assert_eq!(node.free_count(), 4096 - 48);
    assert_eq!(state(&node, BASE), vm_page_state::FREE);
    assert_eq!(pmm_alloc_page(&mut node, 0), Some(BASE + 2 * PAGE));
}

#[test]
fn freeing_twice_is_refused() {
    let res = Vec::new();
    let mut node = node_with_arena(&res);
    let pa = pmm_alloc_page(&mut node, 0).unwrap();
    assert_eq!(node.free_page(pa), Ok(()));
    assert_eq!(node.free_page(pa), Err(ErrNO::BadState));
    assert_eq!(node.free_page(0x1000), Err(ErrNO::NotFound));
    assert_eq!(node.free_page(BASE + 1), Err(ErrNO::NotFound));
    assert_eq!(node.free_count(), 4096 - 48);
    let mut twice = list();
    let pb = pmm_alloc_page(&mut node, 0).unwrap();
    twice.add_tail(pb);
    twice.add_tail(pb);
    assert_eq!(pmm_free(&mut node, &twice), Err(ErrNO::BadState));
    assert_eq!(node.free_count(), 4096 - 48);
}

#[test]
fn page_state_changes_stay_off_the_free_state() {
    let res = Vec::new();
    let mut node = node_with_arena(&res);
    let pa = pmm_alloc_page(&mut node, 0).unwrap();
    assert_eq!(node.set_page_state(pa, vm_page_state::HEAP), Ok(()));
    assert_eq!(state(&node, pa), vm_page_state::HEAP);
    assert_eq!(node.set_page_state(pa, vm_page_state::FREE), Err(ErrNO::BadState));
    assert_eq!(node.set_page_state(BASE + 100 * PAGE, vm_page_state::HEAP), Err(ErrNO::BadState));
    assert_eq!(node.set_page_state(0x1000, vm_page_state::HEAP), Err(ErrNO::NotFound));
    assert_eq!(state(&node, pa), vm_page_state::HEAP);
}

#[test]
fn alloc_contiguous_takes_the_lowest_aligned_run() {
    let res = Vec::new();
    let mut node = node_with_arena(&res);
    assert_eq!(pmm_alloc_page(&mut node, 0), Some(BASE));
    let mut l = list();
    let mut pa = 0;
    // The first run of 16 KiB has lost its first page.
    assert_eq!(pmm_alloc_contiguous(&mut node, 4, 0, 14, &mut pa, &mut l), Ok(()));
    assert_eq!(pa, BASE + 4 * PAGE);
    assert_eq!(l.iter(), vec![BASE + 4 * PAGE, BASE + 5 * PAGE, BASE + 6 * PAGE, BASE + 7 * PAGE]);
    for i in 4..8 {
        assert_eq!(state(&node, BASE + i * PAGE), vm_page_state::ALLOC);
    }
    assert_eq!(state(&node, BASE + 3 * PAGE), vm_page_state::FREE);
    assert_eq!(state(&node, BASE + 8 * PAGE), vm_page_state::FREE);
    assert_eq!(node.free_count(), 4096 - 48 - 5);
    // The free list has the other pages, in their order.
    assert_eq!(pmm_alloc_page(&mut node, 0), Some(BASE + PAGE));
    assert_eq!(pmm_alloc_page(&mut node, 0), Some(BASE + 2 * PAGE));
    assert_eq!(pmm_alloc_page(&mut node, 0), Some(BASE + 3 * PAGE));
    assert_eq!(pmm_alloc_page(&mut node, 0), Some(BASE + 8 * PAGE));
    // A run need not be as long as its alignment.
    let mut m = list();
    assert_eq!(pmm_alloc_contiguous(&mut node, 2, 0, 16, &mut pa, &mut m), Ok(()));
    assert_eq!(pa, BASE + 16 * PAGE);
    assert_eq!(m.iter(), vec![BASE + 16 * PAGE, BASE + 17 * PAGE]);
}

#[test]
fn alloc_contiguous_of_one_page_takes_the_head_of_the_free_list() {
    let res = Vec::new();
    let mut node = node_with_arena(&res);
    let mut l = list();
    assert_eq!(pmm_alloc_range(&mut node, BASE, 1, &mut l), Ok(()));
    assert_eq!(pmm_free(&mut node, &l), Ok(()));
    // The page at the base is now the last of the free list.
    let mut m = list();
    let mut pa = 0;
    assert_eq!(pmm_alloc_contiguous(&mut node, 1, 0, 12, &mut pa, &mut m), Ok(()));
    assert_eq!(pa, BASE + PAGE);
    assert_eq!(m.iter(), vec![BASE + PAGE]);
    // With an alignment above a page the lowest aligned page is taken.
    assert_eq!(pmm_alloc_contiguous(&mut node, 1, 0, 13, &mut pa, &mut m), Ok(()));
    assert_eq!(pa, BASE);
}

#[test]
fn alloc_contiguous_is_all_or_nothing() {
    let res = Vec::new();
    let mut node = node_with_arena(&res);
    let mut l = list();
    let mut pa = 7;
    assert_eq!(pmm_alloc_contiguous(&mut node, 0, 0, 12, &mut pa, &mut l), Err(ErrNO::InvalidArgs));
    // An alignment that is no number of the machine.
    assert_eq!(pmm_alloc_contiguous(&mut node, 1, 0, 64, &mut pa, &mut l), Err(ErrNO::InvalidArgs));
    assert_eq!(pmm_alloc_contiguous(&mut node, 1, 0, 99, &mut pa, &mut l), Err(ErrNO::InvalidArgs));
    // No run is longer than the free pages of the arena.
    assert_eq!(
        pmm_alloc_contiguous(&mut node, 4096 - 48 + 1, 0, 12, &mut pa, &mut l),
        Err(ErrNO::NoMem)
    );
    assert_eq!(pa, 7);
    assert!(l.empty());
    assert_eq!(node.free_count(), 4096 - 48);
    // A taken page in every run of four leaves no run of four.
    let mut taken = list();
    for i in 0..1012 {
        assert_eq!(pmm_alloc_range(&mut node, BASE + (4 * i + 1) * PAGE, 1, &mut taken), Ok(()));
    }
    assert_eq!(pmm_alloc_contiguous(&mut node, 4, 0, 14, &mut pa, &mut l), Err(ErrNO::NoMem));
    assert_eq!(pmm_alloc_contiguous(&mut node, 2, 0, 14, &mut pa, &mut l), Err(ErrNO::NoMem));
    assert_eq!(pmm_alloc_contiguous(&mut node, 2, 0, 13, &mut pa, &mut l), Ok(()));
    assert_eq!(pa, BASE + 2 * PAGE);
    // An empty node has no run.
    let mut empty = PmmNode::new();
    empty.init();
    assert_eq!(pmm_alloc_contiguous(&mut empty, 1, 0, 12, &mut pa, &mut l), Err(ErrNO::NoMem));
    assert_eq!(pmm_alloc_contiguous(&mut empty, 2, 0, 12, &mut pa, &mut l), Err(ErrNO::NoMem));
}

#[test]
fn a_node_has_empty_page_queues() {
    let res = Vec::new();
    let node = node_with_arena(&res);
    assert_eq!(pmm_page_queues(&node).queue_len(PAGE_QUEUE_WIRED), 0);
    assert_eq!(pmm_page_queues(&node).queue_len(PAGE_QUEUE_ANONYMOUS), 0);
}

#[test]
fn mark_pages_in_use_wires_every_page_the_range_touches() {
    let res = Vec::new();
    let mut node = node_with_arena(&res);
    // From the middle of page 5 to the middle of page 7.
    mark_pages_in_use(&mut node, BASE + 5 * PAGE + 100, 2 * PAGE);
    assert_eq!(state(&node, BASE + 4 * PAGE), vm_page_state::FREE);
    assert_eq!(state(&node, BASE + 5 * PAGE), vm_page_state::WIRED);
    assert_eq!(state(&node, BASE + 6 * PAGE), vm_page_state::WIRED);
    assert_eq!(state(&node, BASE + 7 * PAGE), vm_page_state::WIRED);
    assert_eq!(state(&node, BASE + 8 * PAGE), vm_page_state::FREE);
    assert_eq!(node.free_count(), 4096 - 48 - 3);
    for i in 0..5 {
        assert_eq!(pmm_alloc_page(&mut node, 0), Some(BASE + i * PAGE));
    }
    assert_eq!(pmm_alloc_page(&mut node, 0), Some(BASE + 8 * PAGE));
    // A range of whole pages touches no page more.
    mark_pages_in_use(&mut node, BASE + 16 * PAGE, PAGE);
    assert_eq!(state(&node, BASE + 16 * PAGE), vm_page_state::WIRED);
    assert_eq!(state(&node, BASE + 17 * PAGE), vm_page_state::FREE);
}

#[test]
fn add_free_pages_of_an_empty_list_changes_nothing() {
    let res = Vec::new();
    let mut node = node_with_arena(&res);
    let mut l = list();
    node.add_free_pages(&mut l, 0);
    assert_eq!(node.free_count(), 4096 - 48);
    assert_eq!(pmm_alloc_page(&mut node, 0), Some(BASE));
}

#[test]
fn alloc_contiguous_takes_large_alignments() {
    let res = Vec::new();
    let mut node = node_with_arena(&res);
    let mut l = list();
    let mut pa = 0;
    // The arena starts at a multiple of 2 GiB, and at no other.
    assert_eq!(pmm_alloc_contiguous(&mut node, 2, 0, 31, &mut pa, &mut l), Ok(()));
    assert_eq!(pa, BASE);
    assert_eq!(pmm_alloc_contiguous(&mut node, 2, 0, 31, &mut pa, &mut l), Err(ErrNO::NoMem));
    assert_eq!(pmm_alloc_contiguous(&mut node, 1, 0, 63, &mut pa, &mut l), Err(ErrNO::NoMem));
    // The next multiple of 4 MiB.
    assert_eq!(pmm_alloc_contiguous(&mut node, 3, 0, 22, &mut pa, &mut l), Ok(()));
    assert_eq!(pa, BASE + 0x40_0000);
}
