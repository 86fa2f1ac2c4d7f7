//! The lifecycle states of a physical page.
use vstd::prelude::*;

verus! {

/// The state of a physical page, one of the constants of this module.
pub type vm_page_state_t = u8;

/// The page is on the free list of the page-frame allocator.
pub const FREE: u8 = 0;

/// The page was handed out and has no owner of another kind yet.
pub const ALLOC: u8 = 1;

/// The page belongs to a virtual-memory object.
pub const OBJECT: u8 = 2;

/// The page is pinned for the kernel's own bookkeeping.
pub const WIRED: u8 = 3;

/// The page backs the kernel heap.
pub const HEAP: u8 = 4;

/// The page holds page tables.
pub const MMU: u8 = 5;

/// The page holds structures of an IOMMU.
pub const IOMMU: u8 = 6;

/// The page backs an inter-process buffer.
pub const IPC: u8 = 7;

/// The page belongs to a page cache.
pub const CACHE: u8 = 8;

/// The page backs a slab allocator.
pub const SLAB: u8 = 9;

/// The number of states.
pub const COUNT_: u8 = 10;

} // verus!
