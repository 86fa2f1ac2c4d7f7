//! Regions of virtual addresses: a region holds the regions that were
//! carved out of it, and finds room for more in the gaps between them.
use vstd::prelude::*;
use crate::align::{
    align_fits, align_of, lemma_roundup, lemma_roundup_alt, spec_align, spec_roundup,
};
use crate::defines::{PAGE_SHIFT, PAGE_SIZE};
use crate::types::vaddr_t;

verus! {

/// A region of virtual addresses `[base, base + size)`, with the regions
/// inside it.
pub struct VmAddressRegion {
    pub base: vaddr_t,
    pub size: usize,
    pub flags: usize,
    pub children: Vec<VmAddressRegion>,
}

/// The address behind the last of `size` bytes from `start` on, as a
/// machine word: it wraps around at the end of the address space.
pub open spec fn wrapped_end(start: usize, size: usize) -> usize {
    if start + size > usize::MAX {
        (start + size - usize::MAX - 1) as usize
    } else {
        (start + size) as usize
    }
}

/// Where a region that ends at `end` goes among `children`: before the
/// first at or behind position `from` that starts at or behind `end`.
pub open spec fn child_position(children: Seq<VmAddressRegion>, end: usize, from: int) -> int
    decreases children.len() - from,
{
    if from < 0 || from >= children.len() {
        children.len() as int
    } else if children[from].base >= end {
        from
    } else {
        child_position(children, end, from + 1)
    }
}

/// A gap of `gap_len` bytes at `gap_base` has room for `size` bytes
/// below `upper_limit`.
pub open spec fn gap_fits(gap_base: int, gap_len: int, size: int, upper_limit: int) -> bool {
    gap_len >= size && gap_base + size <= upper_limit
}

/// The first gap at a multiple of `align` between the regions from
/// position `i` on that has room for `size` bytes below `upper_limit`:
/// where it starts. The regions before position `i` end at or before
/// `prev_end`, which is a multiple of `align`; the gaps lie in the region
/// `[parent_base, parent_base + parent_size)`. The search ends at a
/// region that reaches the end of the address space.
pub open spec fn spot_from(
    children: Seq<VmAddressRegion>,
    i: int,
    prev_end: int,
    size: int,
    align: int,
    parent_base: int,
    parent_size: int,
    upper_limit: int,
) -> Option<int>
    decreases children.len() - i,
{
    if i < 0 || i >= children.len() {
        // The gap to the right of the last region.
        if prev_end >= parent_base && parent_size > prev_end - parent_base && gap_fits(
            prev_end,
            parent_size - (prev_end - parent_base),
            size,
            upper_limit,
        ) {
            Some(prev_end)
        } else {
            None
        }
    } else {
        let child = children[i];
        let end = child.base + child.size;
        if child.base > prev_end && gap_fits(prev_end, child.base - prev_end, size, upper_limit) {
            Some(prev_end)
        } else if end > usize::MAX || spec_roundup(end, align) > usize::MAX {
            None
        } else {
            spot_from(
                children,
                i + 1,
                spec_roundup(end, align),
                size,
                align,
                parent_base,
                parent_size,
                upper_limit,
            )
        }
    }
}

impl VmAddressRegion {
    /// The regions inside this region, in their order.
    pub open spec fn spec_children(&self) -> Seq<VmAddressRegion> {
        self.children@
    }

    /// A region of no size with nothing inside.
    pub fn new() -> (r: Self)
        ensures
            r.base == 0,
            r.size == 0,
            r.flags == 0,
            r.spec_children().len() == 0,
    {
        Self { base: 0, size: 0, flags: 0, children: Vec::new() }
    }

    /// Makes this the region `[base, base + size)` with the flags `flags`.
    pub fn init(&mut self, base: vaddr_t, size: usize, flags: usize)
        ensures
            final(self).base == base,
            final(self).size == size,
            final(self).flags == flags,
            final(self).spec_children() == old(self).spec_children(),
    {
        self.base = base;
        self.size = size;
        self.flags = flags;
    }

    /// The range `[base, base + size)` starts inside this region and ends
    /// inside it.
    pub open spec fn spec_cover_range(&self, base: vaddr_t, size: usize) -> bool {
        base >= self.base && base - self.base < self.size && self.size - (base - self.base)
            >= size
    }

    /// Tells whether the range `[base, base + size)` starts inside this
    /// region and ends inside it.
    pub fn cover_range(&self, base: vaddr_t, size: usize) -> (r: bool)
        ensures
            r == self.spec_cover_range(base, size),
    {
        // The ends of the ranges are not compared: the end of a range
        // may lie behind the end of the address space.
        if base < self.base {
            return false;
        }
        let offset = base - self.base;
        offset < self.size && self.size - offset >= size
    }

    /// Puts the region `child`, which this region must cover, among the
    /// regions inside this region: before the first that starts at or
    /// behind its end.
    pub fn insert_child(&mut self, child: Self)
        requires
            old(self).spec_cover_range(child.base, child.size),
        ensures
            final(self).base == old(self).base,
            final(self).size == old(self).size,
            final(self).flags == old(self).flags,
            final(self).spec_children() == old(self).spec_children().insert(
                child_position(
                    old(self).spec_children(),
                    wrapped_end(child.base, child.size),
                    0,
                ),
                child,
            ),
    {
        let start = child.base;
        let end = start.wrapping_add(child.size);
        let mut index: usize = 0;
        while index < self.children.len()
            invariant
                index <= self.children@.len(),
                *self == *old(self),
                end == wrapped_end(child.base, child.size),
                child_position(self.children@, end, 0) == child_position(
                    self.children@,
                    end,
                    index as int,
                ),
            ensures
                index == child_position(self.children@, end, 0),
            decreases self.children@.len() - index,
        {
            if self.children[index].base >= end {
                break ;
            }
            index += 1;
        }
        self.children.insert(index, child);
    }

    /// Where an allocation of `size` bytes at a multiple of
    /// `2^align_pow2` goes in this region: at the start of the first gap
    /// between the regions inside that has room for it below
    /// `upper_limit`.
    pub open spec fn spec_alloc_spot(&self, size: usize, align_pow2: usize, upper_limit: vaddr_t)
        -> Option<int> {
        let align = spec_align(align_pow2 as int);
        if spec_roundup(self.base as int, align) > usize::MAX {
            None
        } else {
            spot_from(
                self.spec_children(),
                0,
                spec_roundup(self.base as int, align),
                size as int,
                align,
                self.base as int,
                self.size as int,
                upper_limit as int,
            )
        }
    }

    /// Finds room for an allocation of `size` bytes, which are whole
    /// pages, at a multiple of `2^align_pow2`, which is at least the size
    /// of a page; there must be room for it below `upper_limit`. Returns
    /// where the allocation starts.
    pub fn alloc_spot_locked(
        &mut self,
        size: usize,
        align_pow2: usize,
        _arch_mmu_flags: usize,
        upper_limit: vaddr_t,
    ) -> (r: vaddr_t)
        requires
            size > 0,
            size % PAGE_SIZE == 0,
            align_fits(align_pow2 as int),
            old(self).spec_alloc_spot(size, align_pow2, upper_limit) is Some,
        ensures
            *final(self) == *old(self),
            r == old(self).spec_alloc_spot(size, align_pow2, upper_limit)->Some_0,
            r as int % spec_align(align_pow2 as int) == 0,
            r + size - 1 <= usize::MAX,
    {
        let align_pow2 = if align_pow2 > PAGE_SHIFT {
            align_pow2
        } else {
            PAGE_SHIFT
        };
        let base = self.base;
        let parent_size = self.size;
        self.get_alloc_spot(align_pow2, size, base, parent_size, upper_limit)
    }

    /// The allocation spot that is free and large enough for the aligned
    /// size.
    fn get_alloc_spot(
        &mut self,
        align_pow2: usize,
        size: usize,
        parent_base: vaddr_t,
        parent_size: usize,
        upper_limit: vaddr_t,
    ) -> (r: vaddr_t)
        requires
            PAGE_SHIFT <= align_pow2,
            align_fits(align_pow2 as int),
            old(self).spec_find_spot(size, align_pow2, parent_base, parent_size, upper_limit)
                is Some,
        ensures
            *final(self) == *old(self),
            r == old(self).spec_find_spot(
                size,
                align_pow2,
                parent_base,
                parent_size,
                upper_limit,
            )->Some_0,
            r as int % spec_align(align_pow2 as int) == 0,
            r + size <= upper_limit,
    {
        let (alloc_spot, found) = self.find_alloc_spot_in_gaps(
            size,
            align_pow2,
            parent_base,
            parent_size,
            upper_limit,
        );
        alloc_spot
    }

    /// Where an allocation of `size` bytes at a multiple of
    /// `2^align_pow2` goes between the regions inside this region, in the
    /// range `[parent_base, parent_base + parent_size)` and below
    /// `upper_limit`.
    pub open spec fn spec_find_spot(
        &self,
        size: usize,
        align_pow2: usize,
        parent_base: vaddr_t,
        parent_size: usize,
        upper_limit: vaddr_t,
    ) -> Option<int> {
        let align = spec_align(align_pow2 as int);
        if spec_roundup(parent_base as int, align) > usize::MAX {
            None
        } else {
            spot_from(
                self.spec_children(),
                0,
                spec_roundup(parent_base as int, align),
                size as int,
                align,
                parent_base as int,
                parent_size as int,
                upper_limit as int,
            )
        }
    }

    /// Tries to find room for an allocation of `size` bytes at a multiple
    /// of `2^align_pow2` among the gaps between the regions inside this
    /// region, in the range `[parent_base, parent_base + parent_size)`
    /// and below `upper_limit`. Returns where the first gap with room
    /// starts, and whether there is one.
    pub fn find_alloc_spot_in_gaps(
        &self,
        size: usize,
        align_pow2: usize,
        parent_base: vaddr_t,
        parent_size: vaddr_t,
        upper_limit: vaddr_t,
    ) -> (r: (vaddr_t, bool))
        requires
            PAGE_SHIFT <= align_pow2,
            align_fits(align_pow2 as int),
        ensures
            r.1 == (self.spec_find_spot(size, align_pow2, parent_base, parent_size, upper_limit)
                is Some),
            r.1 ==> r.0 == self.spec_find_spot(
                size,
                align_pow2,
                parent_base,
                parent_size,
                upper_limit,
            )->Some_0 && r.0 as int % spec_align(align_pow2 as int) == 0 && r.0 + size
                <= upper_limit,
            !r.1 ==> r.0 == 0,
    {
        let align = align_of(align_pow2).unwrap();
        let ghost wanted = self.spec_find_spot(
            size,
            align_pow2,
            parent_base,
            parent_size,
            upper_limit,
        );
        // Scan the regions to find the gap to the left of each region.
        // The end of the previous region is rounded up to the alignment,
        // so that all gaps are aligned.
        let mut prev_region_end = match Self::round_up(parent_base, align) {
            None => {
                return (0, false);
            },
            Some(rounded) => rounded,
        };
        let mut i: usize = 0;
        while i < self.children.len()
            invariant
                i <= self.children@.len(),
                align == spec_align(align_pow2 as int),
                align > 0,
                prev_region_end % align == 0,
                wanted == self.spec_find_spot(
                    size,
                    align_pow2,
                    parent_base,
                    parent_size,
                    upper_limit,
                ),
                wanted == spot_from(
                    self.children@,
                    i as int,
                    prev_region_end as int,
                    size as int,
                    align as int,
                    parent_base as int,
                    parent_size as int,
                    upper_limit as int,
                ),
            decreases self.children@.len() - i,
        {
            let child_base = self.children[i].base;
            let child_size = self.children[i].size;
            if child_base > prev_region_end {
                let gap = child_base - prev_region_end;
                if Self::fits(prev_region_end, gap, size, upper_limit) {
                    return (prev_region_end, true);
                }
            }
            if child_size > usize::MAX - child_base {
                // This region is the last region.
                return (0, false);
            }
            let end = child_base + child_size;
            prev_region_end = match Self::round_up(end, align) {
                None => {
                    return (0, false);
                },
                Some(rounded) => rounded,
            };
            i += 1;
        }
        // Grab the gap to the right of the last region. If there are no
        // regions, this is the whole span of the region.
        if prev_region_end >= parent_base && parent_size > prev_region_end - parent_base {
            // This is parent_base + parent_size - prev_region_end, without
            // overflow.
            let gap = parent_size - (prev_region_end - parent_base);
            if Self::fits(prev_region_end, gap, size, upper_limit) {
                return (prev_region_end, true);
            }
        }
        (0, false)
    }

    /// Rounds `a` up to a multiple of `align`, if that is an address.
    fn round_up(a: usize, align: usize) -> (r: Option<usize>)
        requires
            align > 0,
        ensures
            r is Some <==> spec_roundup(a as int, align as int) <= usize::MAX,
            r is Some ==> r->Some_0 == spec_roundup(a as int, align as int) && r->Some_0 % align
                == 0,
    {
        proof {
            lemma_roundup_alt(a as int, align as int);
            lemma_roundup(a as int, align as int);
        }
        let rest = a % align;
        if rest == 0 {
            return Some(a);
        }
        let pad = align - rest;
        if pad > usize::MAX - a {
            return None;
        }
        Some(a + pad)
    }

    /// Tells whether a gap of `gap_len` bytes at `gap_base` has room for
    /// `size` bytes below `upper_limit`.
    fn fits(gap_base: vaddr_t, gap_len: usize, size: usize, upper_limit: vaddr_t) -> (r: bool)
        ensures
            r == gap_fits(gap_base as int, gap_len as int, size as int, upper_limit as int),
    {
        // Ignore a gap that is too small or out of range.
        !(gap_len < size || gap_base > upper_limit || size > upper_limit - gap_base)
    }
}

} // verus!
