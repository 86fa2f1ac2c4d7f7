//! Flags that say how a range of virtual memory is to be mapped.
use vstd::prelude::*;
use crate::align::{lemma_rounddown, rounddown, roundup, spec_rounddown, spec_roundup};
use crate::arch::mmu::{PAGE_READ, PAGE_WRITE};
use crate::defines::PAGE_SIZE;
use crate::klib::list::{without_range, List};
use crate::page::vm_page_t;
use crate::pmm::{lemma_run_seq, pmm_alloc_range, PmmNode};
use crate::types::{paddr_t, prot_t};
use crate::vm_page_state;

verus! {

/// The mapping is cached.
pub const ARCH_MMU_FLAG_CACHED: usize = 0;

/// The mapping is uncached.
pub const ARCH_MMU_FLAG_UNCACHED: usize = 1;

/// The mapping is uncached device memory.
pub const ARCH_MMU_FLAG_UNCACHED_DEVICE: usize = 2;

/// The mapping combines writes.
pub const ARCH_MMU_FLAG_WRITE_COMBINING: usize = 3;

/// The bits of the flags that say how the mapping is cached.
pub const ARCH_MMU_FLAG_CACHE_MASK: usize = 3;

/// User mode may access the mapping.
pub const ARCH_MMU_FLAG_PERM_USER: usize = 4;

/// The mapping can be read.
pub const ARCH_MMU_FLAG_PERM_READ: usize = 8;

/// The mapping can be written.
pub const ARCH_MMU_FLAG_PERM_WRITE: usize = 16;

/// The mapping can be executed.
pub const ARCH_MMU_FLAG_PERM_EXECUTE: usize = 32;

/// The flags of the gaps between arenas in the physical map.
pub const GAP_MMU_FLAGS: usize = 26;

/// The flags that `mmu_prot_from_flags` understands.
pub const MMU_PROT_FLAGS_MASK: usize = 26;

/// The protection bits of a mapping with the flags `mmu_flags`.
pub open spec fn spec_mmu_prot_from_flags(mmu_flags: usize) -> prot_t {
    if mmu_flags & ARCH_MMU_FLAG_PERM_READ != 0 {
        if mmu_flags & ARCH_MMU_FLAG_PERM_WRITE != 0 {
            6
        } else {
            2
        }
    } else {
        if mmu_flags & ARCH_MMU_FLAG_PERM_WRITE != 0 {
            4
        } else {
            0
        }
    }
}

/// Translates mapping flags into the protection bits of a page-table
/// entry: the read bit and the write bit, each if its flag is set. Flags
/// other than read, write and uncached-device are not understood.
pub fn mmu_prot_from_flags(mmu_flags: usize) -> (prot: prot_t)
    requires
        mmu_flags & !MMU_PROT_FLAGS_MASK == 0,
    ensures
        prot == spec_mmu_prot_from_flags(mmu_flags),
{
    let read = (mmu_flags & ARCH_MMU_FLAG_PERM_READ) != 0;
    let write = (mmu_flags & ARCH_MMU_FLAG_PERM_WRITE) != 0;
    if read {
        if write {
            PAGE_READ + PAGE_WRITE
        } else {
            PAGE_READ
        }
    } else {
        if write {
            PAGE_WRITE
        } else {
            0
        }
    }
}

/// The first of the pages that the range `[pa, pa + len)` touches.
pub open spec fn first_page(pa: int) -> int {
    spec_rounddown(pa, PAGE_SIZE as int)
}

/// How many pages the range `[pa, pa + len)` touches.
pub open spec fn pages_touched(pa: int, len: int) -> int {
    spec_roundup(len + pa % (PAGE_SIZE as int), PAGE_SIZE as int) / (PAGE_SIZE as int)
}

/// Marks the physical pages that the range `[pa, pa + len)` touches as
/// wired. They must be free pages of `node`: they leave the free list.
pub fn mark_pages_in_use(node: &mut PmmNode, pa: paddr_t, len: usize)
    requires
        old(node).wf(),
        len + 2 * PAGE_SIZE <= usize::MAX,
        old(node).run_is_free(first_page(pa as int), pages_touched(pa as int, len as int)),
    ensures
        final(node).wf(),
        final(node).free_pages() == without_range(
            old(node).free_pages(),
            first_page(pa as int),
            first_page(pa as int) + pages_touched(pa as int, len as int) * PAGE_SIZE,
        ),
        old(node).updated(
            final(node),
            PmmNode::run_pages(first_page(pa as int), pages_touched(pa as int, len as int)),
            vm_page_state::WIRED,
        ),
{
    // Make sure we are inclusive of all of the pages in the address range.
    let len = roundup(len + pa % PAGE_SIZE, PAGE_SIZE);
    let first = rounddown(pa, PAGE_SIZE);
    let pages = len / PAGE_SIZE;
    let mut list = List::<vm_page_t>::new();
    list.init();
    let res = pmm_alloc_range(node, first, pages, &mut list);
    let ghost mid = *node;
    let paddrs = list.iter();
    proof {
        lemma_rounddown(pa as int, PAGE_SIZE as int);
        lemma_rounddown(first as int, PAGE_SIZE as int);
        assert(res is Ok);
        lemma_run_seq(first as int, pages as int);
        assert(paddrs@ =~= crate::pmm::run_seq(first as int, pages as int));
        assert forall|i: int| 0 <= i < paddrs@.len() implies mid.manages(#[trigger] paddrs@[i])
            && mid.page_at(paddrs@[i]).spec_state() != vm_page_state::FREE by {
            let p = paddrs@[i];
            assert(paddrs@.to_set().contains(p));
            assert(old(node).manages(p));
            crate::page::vm_page::lemma_with(old(node).page_at(p), vm_page_state::ALLOC, false);
            crate::page::vm_page::lemma_with(
                old(node).page_at(p).with_state(vm_page_state::ALLOC),
                vm_page_state::ALLOC,
                false,
            );
        }
    }
    // Mark all of the pages we allocated as wired.
    node.set_states(&paddrs, vm_page_state::WIRED);
    proof {
        old(node).lemma_updated_restate(&mid, &*node, paddrs@.to_set(), vm_page_state::WIRED);
    }
}

} // verus!
