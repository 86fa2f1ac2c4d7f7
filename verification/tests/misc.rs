use kernel::align::{
    align_of, is_aligned, is_page_aligned, rounddown, roundup, roundup_page_size,
};
use kernel::arch::mmu::{vaddr_to_index, PageTable};
use kernel::aspace::{ExistingEntryAction, VmAspace, VmAspaceType};
use kernel::cpu::{cpu_num_to_mask, is_valid_cpu_num};
use kernel::defines::{
    is_physmap_addr, is_physmap_phys_addr, kernel_base_phys, kernel_base_virt, kernel_size,
    kernel_va_to_pa, paddr_to_physmap, periph_tables_end, periph_tables_start, physmap_to_paddr,
    KernelLayout,
};
use kernel::errors::ErrNO;
use kernel::klib::list::{List, ListNode};
use kernel::klib::range::{intersects, is_in_range};
use kernel::klib::rbtree::{IterMut, RBTree};
use kernel::page::{vm_page, vm_page_object};
use kernel::platform::boot_reserve::{
    boot_reserve_add_range, boot_reserve_init, boot_reserve_range_search, BootReserveRange,
};
use kernel::vm::page_queues::{PageQueues, PAGE_QUEUE_ANONYMOUS, PAGE_QUEUE_WIRED};
use kernel::vm::vm::mmu_prot_from_flags;
use kernel::vm::vm_page_list::{VmPageList, VmPageListNode, VmPageOrMarker};
use kernel::vm_page_state;

#[test]
fn rounding() {
    assert_eq!(rounddown(4097, 4096), 4096);
    assert_eq!(rounddown(4096, 4096), 4096);
    assert_eq!(rounddown(4095, 4096), 0);
    assert_eq!(roundup(4097, 4096), 8192);
    assert_eq!(roundup(4096, 4096), 4096);
    assert_eq!(roundup(0, 4096), 0);
    assert_eq!(roundup(10, 3), 12);
    assert_eq!(roundup_page_size(1), 4096);
    assert!(is_aligned(24, 8));
    assert!(!is_aligned(25, 8));
    assert!(is_page_aligned(0x2000));
    assert!(!is_page_aligned(0x2001));
}

#[test]
fn ranges_intersect() {
    assert!(intersects(0, 10, 5, 10));
    assert!(intersects(5, 10, 0, 10));
    assert!(intersects(0, 10, 3, 2));
    assert!(!intersects(0, 10, 10, 10));
    assert!(!intersects(10, 10, 0, 10));
    assert!(!intersects(0, 0, 0, 10));
    assert!(!intersects(5, 10, 7, 0));
    assert!(intersects(usize::MAX - 4, 4, usize::MAX - 1, 1));
}

#[test]
fn ranges_contain() {
    assert!(is_in_range(10, 5, 10, 15));
    assert!(is_in_range(10, 0, 0, 10));
    assert!(!is_in_range(10, 6, 10, 15));
    assert!(!is_in_range(9, 1, 10, 15));
    assert!(!is_in_range(16, 0, 10, 15));
    assert!(!is_in_range(10, usize::MAX, 0, 20));
    assert!(!is_in_range(10, 1, 15, 10));
}

#[test]
fn reservations_are_kept_sorted() {
    let mut res = Vec::new();
    assert_eq!(boot_reserve_init(&mut res, 0x8020_0000, 0x10_0000), Ok(()));
    assert_eq!(boot_reserve_add_range(&mut res, 0x8000_0000, 0x1000), Ok(()));
    assert_eq!(boot_reserve_add_range(&mut res, 0x9000_0000, 0x1000), Ok(()));
    assert_eq!(boot_reserve_add_range(&mut res, 0x8010_0000, 0x1000), Ok(()));
    let starts: Vec<usize> = res.iter().map(|r| r.pa).collect();
    assert_eq!(starts, vec![0x8000_0000, 0x8010_0000, 0x8020_0000, 0x9000_0000]);
    assert_eq!(res[2].len, 0x10_0000);
}

#[test]
fn range_search_goes_from_the_top_down() {
    let mut res = Vec::new();
    let mut out = BootReserveRange { pa: 1, len: 2 };
    assert_eq!(boot_reserve_range_search(&res, 0x1000, 0x1000, 0x100, &mut out), Ok(()));
    assert_eq!((out.pa, out.len), (0x1f00, 0x100));
    assert!(boot_reserve_add_range(&mut res, 0x1f80, 0x80).is_ok());
    assert!(boot_reserve_add_range(&mut res, 0x1e00, 0x90).is_ok());
    assert_eq!(boot_reserve_range_search(&res, 0x1000, 0x1000, 0x100, &mut out), Ok(()));
    // Below the top reservation lie 0xf0 free bytes, which is too few; the
    // spot lies below the lower one.
    assert_eq!((out.pa, out.len), (0x1d00, 0x100));
    assert_eq!(boot_reserve_range_search(&res, 0x1000, 0x1000, 0xf0, &mut out), Ok(()));
    assert_eq!((out.pa, out.len), (0x1e90, 0xf0));
    assert_eq!(boot_reserve_range_search(&res, 0x1000, 0x1000, 0, &mut out), Ok(()));
    assert_eq!((out.pa, out.len), (0x2000, 0));
}

#[test]
fn range_search_fails_when_nothing_fits() {
    let mut res = Vec::new();
    assert!(boot_reserve_add_range(&mut res, 0x1080, 0x10).is_ok());
    let mut out = BootReserveRange { pa: 7, len: 7 };
    assert_eq!(boot_reserve_range_search(&res, 0x1000, 0x100, 0x81, &mut out), Err(ErrNO::NoMem));
    assert_eq!(boot_reserve_range_search(&res, 0x1000, 0x100, 0x101, &mut out), Err(ErrNO::NoMem));
    assert_eq!((out.pa, out.len), (7, 7));
    assert_eq!(boot_reserve_range_search(&res, 0x1000, 0x100, 0x70, &mut out), Ok(()));
    assert_eq!(out.pa, 0x1090);
    // A reservation so low that nothing can lie below it.
    let mut low = Vec::new();
    assert!(boot_reserve_add_range(&mut low, 0x10, 0x1000).is_ok());
    assert_eq!(boot_reserve_range_search(&low, 0, 0x1000, 0x20, &mut out), Err(ErrNO::NoMem));
}

#[test]
fn list_keeps_order() {
    let mut l: List<vm_page> = List::new();
    assert!(!l.is_initialized());
    assert!(l.empty());
    l.init();
    assert!(l.is_initialized());
    assert_eq!(l.head(), None);
    assert_eq!(l.tail(), None);
    assert_eq!(l.pop_head(), None);
    l.add_tail(2);
    l.add_tail(3);
    l.add_head(1);
    assert_eq!(l.iter(), vec![1, 2, 3]);
    assert_eq!(l.len(), 3);
    assert_eq!(l.get(1), 2);
    assert_eq!(l.head(), Some(1));
    assert_eq!(l.tail(), Some(3));
    assert_eq!(l.position(3), Some(2));
    assert_eq!(l.position(4), None);
    assert_eq!(l.pop_head(), Some(1));
    assert!(!l.empty());
    assert_eq!(l.iter(), vec![2, 3]);
}

#[test]
fn list_splice_and_delete() {
    let mut a: List<vm_page> = List::new();
    let mut b: List<vm_page> = List::new();
    a.init();
    b.init();
    a.add_tail(1);
    b.add_tail(2);
    b.add_tail(3);
    b.add_tail(2);
    a.splice(&mut b);
    assert_eq!(a.iter(), vec![1, 2, 3, 2]);
    assert!(b.empty());
    a.splice(&mut b);
    assert_eq!(a.iter(), vec![1, 2, 3, 2]);
    assert!(a.delete(2));
    assert_eq!(a.iter(), vec![1, 3, 2]);
    assert!(!a.delete(7));
    a.remove_range(2, 4);
    assert_eq!(a.iter(), vec![1]);
}

#[test]
fn list_node_records_membership() {
    let mut n = ListNode::new();
    assert!(!n.is_in_list());
    n.add_to_list();
    assert!(n.is_in_list());
    n.delete_from_list();
    assert!(!n.is_in_list());
    n.add_to_list();
    n.init();
    assert!(!n.is_in_list());
}

#[test]
fn page_descriptor() {
    let mut p = vm_page::new(0x8000_1000);
    assert_eq!(p.paddr(), 0x8000_1000);
    assert_eq!(p.state(), vm_page_state::FREE);
    assert!(p.is_free());
    assert!(!p.is_loaned());
    p.set_state(vm_page_state::WIRED);
    assert_eq!(p.state(), vm_page_state::WIRED);
    assert!(!p.is_free());
    assert_eq!(p.paddr(), 0x8000_1000);
    p.init(0x8000_2000);
    assert_eq!(p.paddr(), 0x8000_2000);
    assert!(p.is_free());
}

#[test]
fn page_object_flags_share_the_pin_count_byte() {
    let mut o = vm_page_object::new();
    assert_eq!(o.get_object(), 0);
    assert_eq!(o.pin_count(), 0);
    o.set_pin_count(31);
    o.set_cow_left_split(true);
    assert!(o.cow_left_split());
    assert!(!o.cow_right_split());
    assert!(!o.always_need());
    assert_eq!(o.pin_count(), 31 | 0x20);
    o.set_always_need(true);
    o.set_cow_right_split(true);
    o.set_cow_left_split(false);
    assert_eq!(o.pin_count(), 31 | 0x40 | 0x80);
    assert!(o.cow_right_split());
    assert!(o.always_need());
    o.set_always_need(false);
    o.set_cow_right_split(false);
    assert_eq!(o.pin_count(), 31);
    o.set_pin_count(3);
    assert_eq!(o.pin_count(), 3);
}

#[test]
fn page_object_owner_and_offsets() {
    let mut o = vm_page_object::new();
    o.set_object(0x1000);
    assert_eq!(o.get_object(), 0x1000);
    // An odd owner word names a stack owner, not an object.
    o.set_object(0x1001);
    assert_eq!(o.get_object(), 0);
    o.set_page_offset(0x3000);
    assert_eq!(o.get_page_offset(), 0x3000);
    assert_eq!(o.dirty_state(), 0);
    o.set_dirty_state(3);
    assert_eq!(o.dirty_state(), 3);
}

#[test]
fn address_space_maps_and_queries() {
    let mut a = VmAspace::new(0, VmAspaceType::Kernel, 0x1000_0000, 0x100_0000);
    assert!(a.is_valid_vaddr(0x1000_0000));
    assert!(a.is_valid_vaddr(0x10ff_ffff));
    assert!(!a.is_valid_vaddr(0x1100_0000));
    assert!(!a.is_valid_vaddr(0x0fff_ffff));
    let phys = [0x8000_0000usize, 0x8000_3000, 0x8000_1000];
    assert_eq!(a.map(0x1000_2000, &phys, 3, 8 | 16, ExistingEntryAction::Error), Ok(3));
    assert_eq!(a.query(0x1000_2000), Ok((0x8000_0000, 231)));
    assert_eq!(a.query(0x1000_3fff), Ok((0x8000_3000, 231)));
    assert_eq!(a.query(0x1000_4008), Ok((0x8000_1000, 231)));
    assert_eq!(a.query(0x1000_5000), Err(ErrNO::NotFound));
    assert_eq!(a.query(0x2000_0000), Err(ErrNO::OutOfRange));
    assert_eq!(a.unmap(0x1000_3000, 1, false), Ok(1));
    assert_eq!(a.query(0x1000_3000), Err(ErrNO::NotFound));
    assert_eq!(a.query(0x1000_2000), Ok((0x8000_0000, 231)));
    assert_eq!(a.unmap(0x1000_3000, 4, false), Ok(4));
    assert_eq!(a.query(0x1000_4000), Err(ErrNO::NotFound));
}

#[test]
fn address_space_rejects_bad_mappings() {
    let mut a = VmAspace::new(0, VmAspaceType::Kernel, 0x1000_0000, 0x100_0000);
    let phys = [0x8000_0000usize, 0x8000_1000];
    let bad = [0x8000_0000usize, 0x8000_1001];
    assert_eq!(a.map(0x0fff_f000, &phys, 1, 8, ExistingEntryAction::Error), Err(ErrNO::OutOfRange));
    assert_eq!(a.map(0x1000_0000, &bad, 2, 8, ExistingEntryAction::Error), Err(ErrNO::InvalidArgs));
    assert_eq!(a.map(0x1000_0000, &bad, 1, 8, ExistingEntryAction::Error), Ok(1));
    assert_eq!(a.map(0x1000_1000, &phys, 1, 16, ExistingEntryAction::Error), Err(ErrNO::InvalidArgs));
    assert_eq!(a.map(0x1000_1001, &phys, 1, 8, ExistingEntryAction::Error), Err(ErrNO::InvalidArgs));
    assert_eq!(a.map(0x10ff_f000, &phys, 2, 8, ExistingEntryAction::Error), Err(ErrNO::OutOfRange));
    assert_eq!(a.map(0x1000_1000, &phys, 0, 8, ExistingEntryAction::Error), Ok(0));
    assert_eq!(a.unmap(0x0fff_f000, 1, false), Err(ErrNO::OutOfRange));
    assert_eq!(a.unmap(0x1000_0001, 1, false), Err(ErrNO::InvalidArgs));
}

#[test]
fn mapping_over_a_mapped_page() {
    let mut a = VmAspace::new(0, VmAspaceType::Kernel, 0x1000_0000, 0x100_0000);
    let old = [0x8000_9000usize];
    let phys = [0x8000_0000usize, 0x8000_1000, 0x8000_2000];
    assert_eq!(a.map(0x1000_1000, &old, 1, 8, ExistingEntryAction::Error), Ok(1));
    // With the action Error the pages before the mapped one stay mapped.
    assert_eq!(
        a.map(0x1000_0000, &phys, 3, 8, ExistingEntryAction::Error),
        Err(ErrNO::AlreadyExists)
    );
    assert_eq!(a.query(0x1000_0000), Ok((0x8000_0000, 231)));
    assert_eq!(a.query(0x1000_1000), Ok((0x8000_9000, 231)));
    assert_eq!(a.query(0x1000_2000), Err(ErrNO::NotFound));
    // With the action Skip the mapped pages are left as they are.
    assert_eq!(a.map(0x1000_0000, &phys, 3, 8, ExistingEntryAction::Skip), Ok(3));
    assert_eq!(a.query(0x1000_1000), Ok((0x8000_9000, 231)));
    assert_eq!(a.query(0x1000_2000), Ok((0x8000_2000, 231)));
}

#[test]
fn protect_changes_the_protection_of_mapped_pages() {
    let mut a = VmAspace::new(0, VmAspaceType::Kernel, 0x1000_0000, 0x100_0000);
    let phys = [0x8000_0000usize, 0x8000_1000];
    assert_eq!(a.map(0x1000_0000, &phys, 2, 8, ExistingEntryAction::Error), Ok(2));
    assert_eq!(a.protect(0x1000_0000, 1, 8), Ok(()));
    assert_eq!(a.query(0x1000_0000), Ok((0x8000_0000, 2)));
    assert_eq!(a.query(0x1000_1000), Ok((0x8000_1000, 231)));
    assert_eq!(a.protect(0x1000_0000, 4, 8 | 16), Ok(()));
    assert_eq!(a.query(0x1000_1000), Ok((0x8000_1000, 6)));
    assert_eq!(a.query(0x1000_2000), Err(ErrNO::NotFound));
    assert_eq!(a.protect(0x1000_0000, 1, 16), Err(ErrNO::InvalidArgs));
    assert_eq!(a.protect(0x1000_0001, 1, 8), Err(ErrNO::InvalidArgs));
    assert_eq!(a.protect(0x0fff_0000, 1, 8), Err(ErrNO::InvalidArgs));
    assert_eq!(a.protect(0x1000_0000, 1, 8 | 4), Err(ErrNO::InvalidArgs));
    assert_eq!(a.protect(0x1000_0000, 1, 8 | 32), Err(ErrNO::NotSupported));
    assert_eq!(a.query(0x1000_0000), Ok((0x8000_0000, 6)));
}

#[test]
fn protection_bits_from_flags() {
    assert_eq!(mmu_prot_from_flags(0), 0);
    assert_eq!(mmu_prot_from_flags(8), 2);
    assert_eq!(mmu_prot_from_flags(16), 4);
    assert_eq!(mmu_prot_from_flags(8 | 16), 6);
    assert_eq!(mmu_prot_from_flags(8 | 16 | 2), 6);
}

#[test]
fn ordered_map() {
    let mut t: RBTree<&str> = RBTree::new();
    assert!(t.iter().is_null());
    assert!(t.lower_bound(0).is_null());
    t.insert(30, "c");
    t.insert(10, "a");
    t.insert(20, "b");
    assert_eq!(t.len(), 3);
    assert!(t.contains_key(20));
    assert!(!t.contains_key(25));
    assert_eq!(t.get(10), Some(&"a"));
    assert_eq!(t.get(11), None);
    let it = t.lower_bound(20);
    assert_eq!(it.pos(), 1);
    assert_eq!(t.entry(it.pos()), (20, &"b"));
    let it = t.upper_bound(20);
    assert_eq!(t.entry(it.pos()), (30, &"c"));
    assert!(t.upper_bound(30).is_null());
    assert_eq!(t.lower_bound(0).pos(), 0);
    let first = t.iter();
    let second = t.next(first);
    let third = t.next(second);
    assert_eq!(t.entry(third.pos()).0, 30);
    assert!(t.next(third).is_null());
    assert!(IterMut::null().is_null());
    t.set(1, "z");
    assert_eq!(t.get(20), Some(&"z"));
    // Equal keys stand in the order in which they were put in.
    t.insert(20, "y");
    assert_eq!(t.entry(1), (20, &"z"));
    assert_eq!(t.entry(2), (20, &"y"));
    assert_eq!(t.get(20), Some(&"z"));
}

#[test]
fn page_list_slots() {
    assert!(VmPageOrMarker::empty().is_empty());
    assert!(!VmPageOrMarker::empty().is_page());
    assert!(VmPageOrMarker::marker().is_marker());
    assert!(!VmPageOrMarker::marker().is_empty());
    assert!(!VmPageOrMarker::marker().is_page_or_ref());
    let page = VmPageOrMarker::as_page(0x8000_1000);
    assert!(page.is_page());
    assert!(page.is_page_or_ref());
    assert_eq!(page.page(), 0x8000_1000);
    assert!(VmPageOrMarker::new(0x1002).is_reference());
    assert!(VmPageOrMarker::new(0x1002).is_page_or_ref());
    let mut slot = VmPageOrMarker::marker();
    slot.set(&page);
    assert_eq!(slot.page(), 0x8000_1000);
    slot.set_empty();
    assert!(slot.is_empty());
    slot.set_page(&page);
    assert!(slot.is_page());
}

#[test]
fn page_list_nodes() {
    let mut node = VmPageListNode::new(0x10000);
    assert_eq!(node.offset(), 0x10000);
    assert_eq!(node.key(), 0x10000);
    assert_eq!(node.end_offset(), 0x20000);
    assert!(node.lookup(15).is_empty());
    node.store(3, VmPageOrMarker::as_page(0x8000_0000));
    assert!(node.lookup(3).is_page());
    *node.lookup_mut(4) = VmPageOrMarker::marker();
    assert!(node.lookup(4).is_marker());
    assert!(node.lookup(5).is_empty());
}

#[test]
fn page_list_makes_nodes_on_demand() {
    let mut list = VmPageList::new();
    assert!(list.lookup_or_allocate(0x12345).unwrap().is_empty());
    assert!(list.lookup_or_allocate(0x1f000).unwrap().is_empty());
    assert!(list.lookup_or_allocate(0).unwrap().is_empty());
    assert_eq!(list.lookup_or_allocate(0xfffe_0000).err(), Some(ErrNO::OutOfRange));
    assert!(list.lookup_or_allocate(0xfffd_ffff).is_ok());
}

#[test]
fn physmap_addresses() {
    let layout = KernelLayout {
        kernel_base_phys: 0x8020_0000,
        kernel_base_virt: 0xc020_0000,
        kernel_size: 0x40_0000,
        periph_tables_start: 0xc060_0000,
        periph_tables_end: 0xc060_4000,
        physmap_base: 0x4000_0000,
        physmap_size: 0x2000_0000,
    };
    assert_eq!(kernel_base_phys(&layout), 0x8020_0000);
    assert_eq!(kernel_base_virt(&layout), 0xc020_0000);
    assert_eq!(kernel_size(&layout), 0x40_0000);
    assert_eq!(periph_tables_start(&layout), 0xc060_0000);
    assert_eq!(periph_tables_end(&layout), 0xc060_4000);
    assert!(is_physmap_addr(&layout, 0x4000_0000));
    assert!(is_physmap_addr(&layout, 0x5fff_ffff));
    assert!(!is_physmap_addr(&layout, 0x6000_0000));
    assert!(!is_physmap_addr(&layout, 0x3fff_ffff));
    assert!(is_physmap_phys_addr(&layout, 0x1fff_ffff));
    assert!(!is_physmap_phys_addr(&layout, 0x2000_0000));
    assert_eq!(paddr_to_physmap(&layout, 0x1234), 0x4000_1234);
    assert_eq!(physmap_to_paddr(&layout, 0x4000_1234), 0x1234);
    assert_eq!(kernel_va_to_pa(&layout, 0xc020_1000), 0x8020_1000);
}

#[test]
fn cpu_masks() {
    assert!(is_valid_cpu_num(0));
    assert!(is_valid_cpu_num(7));
    assert!(!is_valid_cpu_num(8));
    assert_eq!(cpu_num_to_mask(0), 1);
    assert_eq!(cpu_num_to_mask(3), 8);
    assert_eq!(cpu_num_to_mask(8), 0);
    assert_eq!(cpu_num_to_mask(usize::MAX), 0);
}

#[test]
fn page_table_entries() {
    let mut t = PageTable::new();
    assert!(!t.item_present(5));
    t.mk_item(5, 0x80000, 231);
    assert!(t.item_present(5));
    assert!(t.item_leaf(5));
    assert_eq!(t.item(5), (0x80000 << 10) | 231);
    assert_eq!(t.item_descend(5), 0x8000_0000);
    t.mk_item(6, 0x80001, 1);
    assert!(t.item_present(6));
    assert!(!t.item_leaf(6));
    t.mk_item(7, 0x80001, 2);
    assert!(!t.item_present(7));
    assert!(!t.item_leaf(7));
    assert_eq!(vaddr_to_index(0x4020_3000, 0), 1);
    assert_eq!(vaddr_to_index(0x4020_3000, 1), 1);
    assert_eq!(vaddr_to_index(0x4020_3000, 2), 3);
    assert_eq!(vaddr_to_index(0x7fff_ffff, 2), 511);
}

#[test]
fn page_queues_count_their_pages() {
    let mut q = PageQueues::new();
    q.init();
    assert_eq!(q.queue_len(PAGE_QUEUE_WIRED), 0);
    q.move_to_wired(0x8000_0000);
    q.move_to_wired(0x8000_1000);
    assert_eq!(q.queue_len(PAGE_QUEUE_WIRED), 2);
    assert_eq!(q.queue_len(PAGE_QUEUE_ANONYMOUS), 0);
}

#[test]
fn alignments_are_powers_of_two_of_at_least_a_page() {
    assert_eq!(align_of(0), Some(4096));
    assert_eq!(align_of(12), Some(4096));
    assert_eq!(align_of(13), Some(8192));
    assert_eq!(align_of(30), Some(1 << 30));
    assert_eq!(align_of(63), Some(1 << 63));
    // Two to the power of 64 is no number of the machine.
    assert_eq!(align_of(64), None);
    assert_eq!(align_of(usize::MAX), None);
}
