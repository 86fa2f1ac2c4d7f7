//! The one value that holds the state of the memory subsystems, made at
//! startup and handed to whoever needs it.
use vstd::prelude::*;
use crate::allocator::VirtualAlloc;
use crate::aspace::{VmAspace, VmAspaceType};
use crate::klib::cmpctmalloc::{hosted, Heap};
use crate::klib::list::List;
use crate::page::vm_page_t;
use crate::platform::boot_reserve::BootReserveRange;
use crate::pmm::PmmNode;
use crate::types::vaddr_t;
use crate::vm_page_state;

verus! {

/// The state of the memory subsystems of the kernel: the boot reservation
/// table, the page-frame allocator, the kernel address space, the
/// allocator of the heap's virtual region, and the heap, which are
/// initialized in that order.
pub struct BootContext {
    pub reserve_ranges: Vec<BootReserveRange>,
    pub reserved_page_list: List<vm_page_t>,
    pub kernel_heap_base: usize,
    pub kernel_heap_size: usize,
    pub pmm_node: PmmNode,
    pub aspace: VmAspace,
    pub virtual_alloc: VirtualAlloc,
    pub heap: Heap,
}

impl BootContext {
    /// The page-frame allocator, the address space and the allocator of
    /// the heap's region are sound, and the region is backed as its
    /// bitmap says.
    pub open spec fn memory_wf(&self) -> bool {
        &&& self.pmm_node.wf()
        &&& self.aspace.wf()
        &&& self.virtual_alloc.wf()
        &&& self.virtual_alloc.backed(&self.pmm_node, &self.aspace)
    }

    /// The heap is ready for use: it is sound and lives in memory of the
    /// allocator of its region, with all below it sound.
    pub open spec fn heap_ready(&self) -> bool {
        &&& self.memory_wf()
        &&& self.heap.wf()
        &&& hosted(self.heap@, &self.virtual_alloc)
    }

    /// A context in which nothing is initialized but the page-frame
    /// allocator, which has no arena yet, and the kernel address space
    /// `[base, base + size)`, which has no mapping yet.
    pub fn new(aspace_base: vaddr_t, aspace_size: usize) -> (r: Self)
        requires
            aspace_size > 0 ==> aspace_base + (aspace_size - 1) <= usize::MAX,
        ensures
            r.memory_wf(),
            r.reserve_ranges@.len() == 0,
            r.reserved_page_list.spec_is_initialized(),
            r.reserved_page_list@.len() == 0,
            r.pmm_node.spec_arenas().len() == 0,
            r.pmm_node.free_pages().len() == 0,
            r.aspace.spec_base() == aspace_base,
            r.aspace.spec_size() == aspace_size,
            r.virtual_alloc.spec_alloc_base() == 0,
            r.virtual_alloc.spec_page_state() == vm_page_state::HEAP,
            r.heap@.blocks.len() == 0,
            r.heap@.cached is None,
            r.heap@.size == 0,
            r.heap@.remaining == 0,
    {
        let mut pmm_node = PmmNode::new();
        pmm_node.init();
        let mut reserved_page_list = List::new();
        reserved_page_list.init();
        Self {
            reserve_ranges: Vec::new(),
            reserved_page_list,
            kernel_heap_base: 0,
            kernel_heap_size: 0,
            pmm_node,
            aspace: VmAspace::new(0, VmAspaceType::Kernel, aspace_base, aspace_size),
            virtual_alloc: VirtualAlloc::new(vm_page_state::HEAP),
            heap: Heap::new(),
        }
    }
}

} // verus!
