//! Sizes and limits that every subsystem agrees on.
use vstd::prelude::*;

verus! {

/// Bits in a byte.
pub const BYTE_BITS: usize = 8;

/// Bytes in a machine word.
pub const BYTES_PER_USIZE: usize = 8;

/// Binary logarithm of the page size.
pub const PAGE_SHIFT: usize = 12;

/// Bytes in a page.
pub const PAGE_SIZE: usize = 4096;

/// Largest number of processors the kernel is configured for.
pub const SMP_MAX_CPUS: usize = 8;

/// Binary logarithm of the alignment of kernel heap growth.
pub const ARCH_HEAP_ALIGN_BITS: usize = 12;

/// Upper bound of the kernel heap in mebibytes.
pub const HEAP_MAX_SIZE_MB: usize = 512;

/// Default size of a kernel stack in bytes.
pub const ARCH_DEFAULT_STACK_SIZE: usize = 8192;

/// Bytes in a mebibyte.
pub const MB: usize = 1024 * 1024;

} // verus!

verus! {

/// Where the kernel and the map of physical memory lie, as the linker and
/// the configuration of the platform say.
#[derive(Clone, Copy, Debug)]
pub struct KernelLayout {
    /// Physical address of the kernel image.
    pub kernel_base_phys: usize,
    /// Virtual address of the kernel image.
    pub kernel_base_virt: usize,
    /// Bytes in the kernel image.
    pub kernel_size: usize,
    /// Where the tables of the peripherals start.
    pub periph_tables_start: usize,
    /// Where the tables of the peripherals end.
    pub periph_tables_end: usize,
    /// Virtual address at which physical memory is mapped.
    pub physmap_base: usize,
    /// Bytes of physical memory that are mapped there.
    pub physmap_size: usize,
}

/// Physical address at which the map of physical memory starts.
pub const PHYSMAP_BASE_PHYS: usize = 0;

/// The virtual address `va` lies in the map of physical memory.
pub open spec fn spec_is_physmap_addr(layout: &KernelLayout, va: usize) -> bool {
    va >= layout.physmap_base && va - layout.physmap_base < layout.physmap_size
}

/// Physical address of the kernel image.
pub fn kernel_base_phys(layout: &KernelLayout) -> (r: usize)
    ensures
        r == layout.kernel_base_phys,
{
    layout.kernel_base_phys
}

/// Virtual address of the kernel image.
pub fn kernel_base_virt(layout: &KernelLayout) -> (r: usize)
    ensures
        r == layout.kernel_base_virt,
{
    layout.kernel_base_virt
}

/// Bytes in the kernel image.
pub fn kernel_size(layout: &KernelLayout) -> (r: usize)
    ensures
        r == layout.kernel_size,
{
    layout.kernel_size
}

/// Where the tables of the peripherals start.
pub fn periph_tables_start(layout: &KernelLayout) -> (r: usize)
    ensures
        r == layout.periph_tables_start,
{
    layout.periph_tables_start
}

/// Where the tables of the peripherals end.
pub fn periph_tables_end(layout: &KernelLayout) -> (r: usize)
    ensures
        r == layout.periph_tables_end,
{
    layout.periph_tables_end
}

/// Tells whether the virtual address `va` lies in the map of physical
/// memory.
pub fn is_physmap_addr(layout: &KernelLayout, va: usize) -> (r: bool)
    ensures
        r == spec_is_physmap_addr(layout, va),
{
    va >= layout.physmap_base && (va - layout.physmap_base < layout.physmap_size)
}

/// Tells whether the physical address `pa` is mapped in the map of
/// physical memory.
pub fn is_physmap_phys_addr(layout: &KernelLayout, pa: usize) -> (r: bool)
    ensures
        r == (pa - PHYSMAP_BASE_PHYS < layout.physmap_size),
{
    pa - PHYSMAP_BASE_PHYS < layout.physmap_size
}

/// Physical to virtual in the map of physical memory.
pub fn paddr_to_physmap(layout: &KernelLayout, pa: usize) -> (r: usize)
    requires
        pa + layout.physmap_base <= usize::MAX,
    ensures
        r == pa - PHYSMAP_BASE_PHYS + layout.physmap_base,
        pa < layout.physmap_size ==> spec_is_physmap_addr(layout, r),
{
    pa - PHYSMAP_BASE_PHYS + layout.physmap_base
}

/// Given an address in the map of physical memory, reverses back to the
/// physical address.
pub fn physmap_to_paddr(layout: &KernelLayout, va: usize) -> (r: usize)
    requires
        spec_is_physmap_addr(layout, va),
    ensures
        r == va - layout.physmap_base + PHYSMAP_BASE_PHYS,
        r < layout.physmap_size,
{
    va - layout.physmap_base + PHYSMAP_BASE_PHYS
}

/// Given an address in the kernel image, reverses back to the physical
/// address.
pub fn kernel_va_to_pa(layout: &KernelLayout, va: usize) -> (r: usize)
    requires
        !spec_is_physmap_addr(layout, va),
        va >= layout.kernel_base_virt,
        va - layout.kernel_base_virt + layout.kernel_base_phys <= usize::MAX,
    ensures
        r == va - layout.kernel_base_virt + layout.kernel_base_phys,
{
    va - layout.kernel_base_virt + layout.kernel_base_phys
}

/// Mapping a physical address into the map of physical memory and back
/// gives the address.
pub proof fn lemma_physmap_round_trip(layout: &KernelLayout, pa: usize)
    requires
        pa < layout.physmap_size,
        pa + layout.physmap_base <= usize::MAX,
    ensures
        spec_is_physmap_addr(layout, (pa - PHYSMAP_BASE_PHYS + layout.physmap_base) as usize),
        (pa - PHYSMAP_BASE_PHYS + layout.physmap_base) - layout.physmap_base + PHYSMAP_BASE_PHYS
            == pa,
{
}

} // verus!
