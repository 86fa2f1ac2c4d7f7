//! Bits of a page-table entry.
use vstd::prelude::*;

verus! {

/// Entries in one page table.
pub const PAGE_TABLE_ENTRIES: usize = 512;

/// Position of the page-frame number in an entry.
pub const PAGE_PFN_SHIFT: usize = 10;

/// The entry is valid.
pub const PAGE_PRESENT: usize = 1;

/// The page can be read.
pub const PAGE_READ: usize = 2;

/// The page can be written.
pub const PAGE_WRITE: usize = 4;

/// The page can be executed.
pub const PAGE_EXEC: usize = 8;

/// User mode may access the page.
pub const PAGE_USER: usize = 16;

/// The mapping is global.
pub const PAGE_GLOBAL: usize = 32;

/// The page was accessed.
pub const PAGE_ACCESSED: usize = 64;

/// The page was written.
pub const PAGE_DIRTY: usize = 128;

/// An entry with one of these bits maps a page rather than a table.
pub const PAGE_LEAF: usize = 14;

/// The protection of kernel data: present, readable, writable, global,
/// accessed and dirty.
pub const PAGE_KERNEL: usize = 231;

/// The protection of kernel code.
pub const PAGE_KERNEL_EXEC: usize = 239;

/// The protection of mapped device memory.
pub const PAGE_IOREMAP: usize = 231;

/// Levels of the page table.
pub const MMU_LEVELS: usize = 3;

/// Bytes that an entry of a table of level `level` covers: a gibibyte at
/// level 0, two mebibytes at level 1, a page at level 2.
pub open spec fn spec_level_size(level: usize) -> int {
    if level == 0 {
        0x4000_0000
    } else if level == 1 {
        0x20_0000
    } else {
        0x1000
    }
}

/// The entry of the table of level `level` that the virtual address
/// `addr` goes through.
pub open spec fn spec_vaddr_to_index(addr: usize, level: usize) -> int {
    (addr as int / spec_level_size(level)) % 512
}

/// The entry of the table of level `level` that the virtual address
/// `addr` goes through.
pub fn vaddr_to_index(addr: usize, level: usize) -> (r: usize)
    requires
        level < MMU_LEVELS,
    ensures
        r == spec_vaddr_to_index(addr, level),
        r < PAGE_TABLE_ENTRIES,
{
    let size: usize = if level == 0 {
        0x4000_0000
    } else if level == 1 {
        0x20_0000
    } else {
        0x1000
    };
    (addr / size) % PAGE_TABLE_ENTRIES
}

/// One table of the page table: 512 entries.
pub struct PageTable(pub Vec<usize>);

impl PageTable {
    /// The table has its 512 entries.
    pub open spec fn wf(&self) -> bool {
        self.0@.len() == PAGE_TABLE_ENTRIES
    }

    /// The entry `index` is valid.
    pub open spec fn spec_item_present(&self, index: int) -> bool {
        self.0@[index] % 2 == 1
    }

    /// The entry `index` is valid and maps a page.
    pub open spec fn spec_item_leaf(&self, index: int) -> bool {
        self.spec_item_present(index) && (self.0@[index] / 2) % 8 != 0
    }

    /// A table whose entries are all invalid.
    pub fn new() -> (r: Self)
        ensures
            r.wf(),
            forall|i: int| 0 <= i < PAGE_TABLE_ENTRIES ==> r.0@[i] == 0,
    {
        let mut v: Vec<usize> = Vec::new();
        let mut i: usize = 0;
        while i < PAGE_TABLE_ENTRIES
            invariant
                i <= PAGE_TABLE_ENTRIES,
                v@.len() == i,
                forall|k: int| 0 <= k < i ==> v@[k] == 0,
            decreases PAGE_TABLE_ENTRIES - i,
        {
            v.push(0);
            i += 1;
        }
        PageTable(v)
    }

    /// Makes the entry `index` one for the page frame `pfn` with the
    /// protection bits `prot`.
    pub fn mk_item(&mut self, index: usize, pfn: usize, prot: usize)
        requires
            old(self).wf(),
            index < PAGE_TABLE_ENTRIES,
            prot < 1024,
            pfn * 1024 + prot <= usize::MAX,
        ensures
            final(self).wf(),
            final(self).0@ == old(self).0@.update(index as int, (pfn * 1024 + prot) as usize),
    {
        self.0[index] = pfn * 1024 + prot;
    }

    /// Tells whether the entry `index` is valid.
    pub fn item_present(&self, index: usize) -> (r: bool)
        requires
            self.wf(),
            index < PAGE_TABLE_ENTRIES,
        ensures
            r == self.spec_item_present(index as int),
    {
        self.0[index] % 2 == PAGE_PRESENT
    }

    /// Tells whether the entry `index` is valid and maps a page, rather
    /// than pointing to a table of the next level.
    pub fn item_leaf(&self, index: usize) -> (r: bool)
        requires
            self.wf(),
            index < PAGE_TABLE_ENTRIES,
        ensures
            r == self.spec_item_leaf(index as int),
    {
        self.item_present(index) && (self.0[index] / 2) % 8 != 0
    }

    /// The physical address that the entry `index` points to.
    pub fn item_descend(&self, index: usize) -> (r: usize)
        requires
            self.wf(),
            index < PAGE_TABLE_ENTRIES,
            (self.0@[index as int] / 1024) * 4096 <= usize::MAX,
        ensures
            r == (self.0@[index as int] / 1024) * 4096,
    {
        (self.0[index] / 1024) * 4096
    }

    /// The entry `index`.
    pub fn item(&self, index: usize) -> (r: usize)
        requires
            self.wf(),
            index < PAGE_TABLE_ENTRIES,
        ensures
            r == self.0@[index as int],
    {
        self.0[index]
    }
}

} // verus!
