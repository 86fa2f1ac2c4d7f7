//! The boot-time bump allocator, and the allocator of virtual page runs
//! that backs the kernel heap.
use vstd::prelude::*;
use crate::align::{
    align_of, is_page_aligned, lemma_align_pages, lemma_mod_multiple, lemma_roundup,
    lemma_roundup_alt, roundup, spec_align, spec_roundup, align_fits,
};
use crate::aspace::{in_run, lemma_in_run_step, mapped, unmapped, ExistingEntryAction, VmAspace};
use crate::boot::BootContext;
use crate::defines::{ARCH_HEAP_ALIGN_BITS, BYTES_PER_USIZE, BYTE_BITS, PAGE_SHIFT, PAGE_SIZE};
use crate::errors::ErrNO;
use crate::klib::bitmap::Bitmap;
use crate::klib::cmpctmalloc::{
    cmpct_init, spec_rounded_size, HEAP_GROW_SIZE, HEAP_MAX_ALLOC_SIZE, HEAP_USABLE_GROW_SIZE,
    SIZE_OF_HEADER_T,
};
use crate::klib::heap_model::{can_take, first_view, taken_addr, HeapView};
use crate::klib::list::List;
use crate::page::vm_page_t;
use crate::pmm::{carved, carved_part, lemma_concat_distinct, lemma_concat_set, PmmNode};
use crate::types::vaddr_t;
use crate::vm::vm::{ARCH_MMU_FLAG_CACHED, ARCH_MMU_FLAG_PERM_READ, ARCH_MMU_FLAG_PERM_WRITE};
use crate::vm_page_state;
use crate::vm_page_state::vm_page_state_t;

verus! {

/// Pages mapped with one call of the mapper.
pub const BATCH_PAGES: usize = 128;

/// An allocator that hands out memory from a fixed range front to back, and
/// takes all of it back when the last allocation is returned.
pub struct BumpAllocator {
    start: usize,
    end: usize,
    next: usize,
    allocations: usize,
}

impl BumpAllocator {
    /// First address of the range.
    pub closed spec fn spec_start(&self) -> usize {
        self.start
    }

    /// One past the last address of the range.
    pub closed spec fn spec_end(&self) -> usize {
        self.end
    }

    /// Where the next allocation starts at the earliest.
    pub closed spec fn spec_next(&self) -> usize {
        self.next
    }

    /// The number of allocations that were not returned yet.
    pub closed spec fn spec_allocations(&self) -> usize {
        self.allocations
    }

    /// Creates a new empty bump allocator.
    pub fn new() -> (r: Self)
        ensures
            r.spec_start() == 0,
            r.spec_end() == 0,
            r.spec_next() == 0,
            r.spec_allocations() == 0,
    {
        BumpAllocator { start: 0, end: 0, next: 0, allocations: 0 }
    }

    /// Initializes the bump allocator with the given heap bounds. The
    /// range must be unused, and this must be called only once.
    pub fn init(&mut self, start: usize, size: usize)
        requires
            start + size <= usize::MAX,
        ensures
            final(self).spec_start() == start,
            final(self).spec_end() == start + size,
            final(self).spec_next() == start,
            final(self).spec_allocations() == old(self).spec_allocations(),
    {
        self.start = start;
        self.end = start + size;
        self.next = start;
    }

    /// Where an allocation of `size` bytes aligned to `align` would start,
    /// if the range has room for it.
    pub open spec fn spec_alloc(&self, size: usize, align: usize) -> Option<usize> {
        let start = spec_roundup(self.spec_next() as int, align as int);
        if start + size <= self.spec_end() && self.spec_allocations() < usize::MAX {
            Some(start as usize)
        } else {
            None
        }
    }

    /// Hands out `size` bytes aligned to `align` from the front of what is
    /// left, or nothing when that much is not left.
    pub fn allocate(&mut self, size: usize, align: usize) -> (r: Option<usize>)
        requires
            align > 0,
        ensures
            r == old(self).spec_alloc(size, align),
            final(self).spec_start() == old(self).spec_start(),
            final(self).spec_end() == old(self).spec_end(),
            r is None ==> *final(self) == *old(self),
            r is Some ==> final(self).spec_next() == r->Some_0 + size && final(self).spec_allocations() == old(self).spec_allocations() + 1,
    {
        proof {
            lemma_roundup_alt(self.next as int, align as int);
        }
        proof {
            vstd::arithmetic::div_mod::lemma_mod_decreases(self.next as nat, align as nat);
        }
        let rem = self.next % align;
        let start = if rem == 0 {
            self.next
        } else {
            if self.next - rem > usize::MAX - align {
                return None;
            }
            self.next - rem + align
        };
        if start > self.end || size > self.end - start || self.allocations == usize::MAX {
            return None;
        }
        self.next = start + size;
        self.allocations += 1;
        Some(start)
    }

    /// Takes one allocation back. When it was the last one outstanding,
    /// the whole range is free again.
    pub fn deallocate(&mut self)
        requires
            old(self).spec_allocations() > 0,
        ensures
            final(self).spec_start() == old(self).spec_start(),
            final(self).spec_end() == old(self).spec_end(),
            final(self).spec_allocations() == old(self).spec_allocations() - 1,
            final(self).spec_next() == (if old(self).spec_allocations() == 1 {
                old(self).spec_start()
            } else {
                old(self).spec_next()
            }),
    {
        self.allocations -= 1;
        if self.allocations == 0 {
            self.next = self.start;
        }
    }
}

/// A page granule allocator that manages a given virtual region and
/// provides virtually contiguous allocations inside that region. It has no
/// dependency on the heap: it takes all its backing memory directly from
/// the page-frame allocator and maps it through the address space.
pub struct VirtualAlloc {
    allocated_page_state: vm_page_state_t,
    /// The padding to be applied to every allocation.
    alloc_guard: usize,
    alloc_base: vaddr_t,
    /// Where a search for a free run begins, to find one quickly.
    next_search_start: usize,
    align_log2: usize,
    bitmap: Bitmap,
}

impl VirtualAlloc {
    /// The state given to the pages that back allocations.
    pub closed spec fn spec_page_state(&self) -> vm_page_state_t {
        self.allocated_page_state
    }

    /// The padding, in pages, on either side of every allocation.
    pub closed spec fn spec_guard(&self) -> usize {
        self.alloc_guard
    }

    /// First address of the region, or 0 as long as the allocator is not
    /// initialized.
    pub closed spec fn spec_alloc_base(&self) -> vaddr_t {
        self.alloc_base
    }

    /// The page at which the next search for a free run begins.
    pub closed spec fn spec_next_search_start(&self) -> usize {
        self.next_search_start
    }

    /// Binary logarithm of the alignment of the region.
    pub closed spec fn spec_align_log2(&self) -> usize {
        self.align_log2
    }

    /// The occupancy of the region: bit `i` is set exactly when page `i`
    /// of the region is allocated.
    pub closed spec fn bits(&self) -> Seq<bool> {
        self.bitmap@
    }

    /// The number of pages at the start of the region that hold the
    /// bitmap itself.
    pub closed spec fn spec_bitmap_pages(&self) -> usize {
        ((self.bitmap.spec_storage_num() * BYTES_PER_USIZE) / (PAGE_SIZE as int)) as usize
    }

    /// The bitmap is sound and small enough to count its bytes.
    pub closed spec fn bitmap_wf(&self) -> bool {
        &&& self.bitmap.wf()
        &&& self.bitmap.spec_storage_num() * BYTES_PER_USIZE <= usize::MAX
        &&& self.bitmap.spec_size() == self.bitmap@.len()
    }

    /// Pages that back allocations are never in the free state; and once
    /// the allocator is initialized its region is page aligned and ends
    /// inside the address space, the pages of the bitmap itself are marked
    /// allocated, and the search start lies in the region.
    pub open spec fn wf(&self) -> bool {
        &&& self.bitmap_wf()
        &&& self.spec_page_state() != vm_page_state::FREE
        &&& self.spec_alloc_base() == 0 ==> self.bits().len() == 0
        &&& self.spec_alloc_base() != 0 ==> {
            &&& self.spec_alloc_base() % PAGE_SIZE == 0
            &&& self.spec_alloc_base() + self.bits().len() * PAGE_SIZE <= usize::MAX
            &&& self.spec_bitmap_pages() <= self.bits().len()
            &&& forall|i: int| 0 <= i < self.spec_bitmap_pages() ==> self.bits()[i]
            &&& self.spec_next_search_start() <= self.bits().len()
            &&& PAGE_SHIFT <= self.spec_align_log2()
            &&& align_fits(self.spec_align_log2() as int)
            &&& self.spec_guard() * 2 <= usize::MAX
        }
    }

    /// The address of page `i` of the region.
    pub open spec fn page_va(&self, i: int) -> usize {
        (self.spec_alloc_base() + i * PAGE_SIZE) as usize
    }

    /// An allocator for pages that take the state `allocated_page_state`
    /// when they back an allocation. It manages no region yet.
    pub fn new(allocated_page_state: vm_page_state_t) -> (r: Self)
        requires
            allocated_page_state != vm_page_state::FREE,
        ensures
            r.wf(),
            r.spec_page_state() == allocated_page_state,
            r.spec_alloc_base() == 0,
            r.spec_guard() == 0,
            r.spec_next_search_start() == 0,
            r.spec_align_log2() == 0,
    {
        Self {
            allocated_page_state,
            alloc_guard: 0,
            alloc_base: 0,
            next_search_start: 0,
            align_log2: 0,
            bitmap: Bitmap::new(),
        }
    }

    /// First address of the region, or 0 as long as the allocator is not
    /// initialized.
    pub fn alloc_base(&self) -> (r: vaddr_t)
        ensures
            r == self.spec_alloc_base(),
    {
        self.alloc_base
    }

    /// The number of pages in the region.
    pub fn region_pages(&self) -> (r: usize)
        requires
            self.wf(),
        ensures
            r == self.bits().len(),
    {
        self.bitmap.size()
    }

    /// The page at which the next search for a free run begins.
    pub fn next_search_start(&self) -> (r: usize)
        ensures
            r == self.spec_next_search_start(),
    {
        self.next_search_start
    }

    /// Tells whether page `index` of the region is allocated.
    pub fn is_page_allocated(&self, index: usize) -> (r: bool)
        requires
            self.wf(),
            index < self.bits().len(),
        ensures
            r == self.bits()[index as int],
    {
        let mut out: usize = 0;
        proof {
            self.bitmap.lemma_storage_len();
        }
        let all_set = self.bitmap.scan(index, index + 1, true, &mut out);
        proof {
            if all_set {
                assert(self.bitmap@[index as int]);
            } else {
                assert(out == index);
            }
        }
        all_set
    }

    /// The number of pages at the start of the region that hold the
    /// bitmap itself.
    pub fn bitmap_pages(&self) -> (r: usize)
        requires
            self.wf(),
        ensures
            r == self.spec_bitmap_pages(),
    {
        self.bitmap.storage_num() * BYTES_PER_USIZE / PAGE_SIZE
    }

    /// Where an allocation of `n` pages is placed when the search begins
    /// at page `from`: behind the guard at the start of the first run of
    /// `n` pages and a guard on either side that is free.
    pub open spec fn run_from(&self, from: int, n: int) -> Option<int> {
        let len = n + 2 * self.spec_guard();
        if 0 <= from < self.bits().len() && self.has_free_run(from, len) {
            Some(self.first_free_run(from, len) + self.spec_guard())
        } else {
            None
        }
    }

    /// A run of `len` free pages lies at or behind page `from`.
    pub closed spec fn has_free_run(&self, from: int, len: int) -> bool {
        self.bitmap.has_run(from, self.bitmap.spec_size() as int, len, false)
    }

    /// Where the first run of `len` free pages at or behind page `from`
    /// starts.
    pub closed spec fn first_free_run(&self, from: int, len: int) -> int {
        self.bitmap.first_run(from, self.bitmap.spec_size() as int, len, false)
    }

    /// What the first free run is: `len` free pages behind `from`, inside
    /// the region, with no such run starting earlier.
    pub proof fn lemma_free_run(&self, from: int, len: int)
        requires
            self.bitmap_wf(),
            self.has_free_run(from, len),
            0 <= len,
        ensures
            from <= self.first_free_run(from, len),
            self.first_free_run(from, len) + len <= self.bits().len(),
            forall|k: int|
                self.first_free_run(from, len) <= k < self.first_free_run(from, len) + len
                    ==> !self.bits()[k],
    {
        let size = self.bitmap.spec_size() as int;
        self.bitmap.lemma_first_run_is_least(from, size, len, false);
    }

    /// Where an allocation of `n` pages is placed: searched first from the
    /// recorded search start, then from the end of the bitmap's own pages.
    pub open spec fn spec_bitmap_alloc(&self, n: int) -> Option<int> {
        match self.run_from(self.spec_next_search_start() as int, n) {
            Some(s) => Some(s),
            None => self.run_from(self.spec_bitmap_pages() as int, n),
        }
    }

    /// The occupancy after pages `[lo, hi)` were given the value `value`.
    pub open spec fn bits_with(&self, lo: int, hi: int, value: bool) -> Seq<bool> {
        Seq::new(
            self.bits().len(),
            |i: int|
                if lo <= i < hi {
                    value
                } else {
                    self.bits()[i]
                },
        )
    }

    /// Looks for a free run for `num_pages` pages and a guard on either
    /// side among the pages `[start, end)`, marks the pages behind the
    /// first guard allocated, and records their end as the next search
    /// start.
    fn bitmap_alloc_range(&mut self, num_pages: usize, start: usize, end: usize) -> (r: Result<
        vaddr_t,
        ErrNO,
    >)
        requires
            old(self).wf(),
            old(self).spec_alloc_base() != 0,
            num_pages > 0,
            end == old(self).bits().len(),
        ensures
            final(self).wf(),
            final(self).spec_alloc_base() == old(self).spec_alloc_base(),
            final(self).spec_guard() == old(self).spec_guard(),
            final(self).spec_page_state() == old(self).spec_page_state(),
            final(self).spec_align_log2() == old(self).spec_align_log2(),
            final(self).spec_bitmap_pages() == old(self).spec_bitmap_pages(),
            r is Ok <==> old(self).run_from(start as int, num_pages as int) is Some,
            r is Err ==> *final(self) == *old(self),
            r is Ok ==> ({
                let s = old(self).run_from(start as int, num_pages as int)->Some_0;
                &&& r->Ok_0 == s
                &&& start + old(self).spec_guard() <= s
                &&& s + num_pages + old(self).spec_guard() <= old(self).bits().len()
                &&& forall|k: int|
                    s - old(self).spec_guard() <= k < s + num_pages + old(self).spec_guard()
                        ==> !old(self).bits()[k]
                &&& final(self).bits() == old(self).bits_with(s, s + num_pages, true)
                &&& final(self).spec_next_search_start() == s + num_pages
            }),
    {
        // Want to find a run of num_pages + padding on either end. By
        // over-searching we can ensure there is always alloc_guard unused
        // pages between each allocation.
        if num_pages > usize::MAX - self.alloc_guard * 2 {
            proof {
                if self.has_free_run(start as int, num_pages + 2 * self.alloc_guard) {
                    self.lemma_free_run(start as int, num_pages + 2 * self.alloc_guard);
                }
            }
            return Err(ErrNO::NoResources);
        }
        let find_pages: usize = num_pages + self.alloc_guard * 2;
        // See if there is an unaligned range that will satisfy.
        let mut alloc_start = match self.bitmap.find(false, start, end, find_pages) {
            Err(e) => {
                return Err(e);
            },
            Ok(s) => s,
        };
        proof {
            self.lemma_free_run(start as int, find_pages as int);
        }
        // Increase our start to skip the padding we want to leave.
        alloc_start += self.alloc_guard;
        // Record the end of this allocation as our next search start. We
        // set the end to not include the padding so that the padding at
        // the end of this allocation becomes the padding at the start of
        // the next one.
        self.next_search_start = alloc_start + num_pages;
        // Set the bits for the 'inner' allocation, leaving the padding we
        // found unset.
        let ghost before = self.bitmap;
        let res = self.bitmap.set(alloc_start, alloc_start + num_pages);
        proof {
            before.lemma_storage_len();
            self.bitmap.lemma_storage_len();
            assert(self.bits() =~= old(self).bits_with(
                alloc_start as int,
                alloc_start + num_pages,
                true,
            ));
        }
        Ok(alloc_start)
    }

    /// Finds room for `num_pages` pages, searching first from the recorded
    /// search start and then again from the beginning of the region, just
    /// behind the bitmap itself.
    fn bitmap_alloc(&mut self, num_pages: usize) -> (r: Result<vaddr_t, ErrNO>)
        requires
            old(self).wf(),
            old(self).spec_alloc_base() != 0,
            num_pages > 0,
        ensures
            final(self).wf(),
            final(self).spec_alloc_base() == old(self).spec_alloc_base(),
            final(self).spec_guard() == old(self).spec_guard(),
            final(self).spec_page_state() == old(self).spec_page_state(),
            final(self).spec_align_log2() == old(self).spec_align_log2(),
            final(self).spec_bitmap_pages() == old(self).spec_bitmap_pages(),
            r is Ok <==> old(self).spec_bitmap_alloc(num_pages as int) is Some,
            r is Err ==> *final(self) == *old(self),
            r is Ok ==> ({
                let s = old(self).spec_bitmap_alloc(num_pages as int)->Some_0;
                &&& r->Ok_0 == s
                &&& old(self).spec_bitmap_pages() <= s
                &&& s + num_pages + old(self).spec_guard() <= old(self).bits().len()
                &&& forall|k: int|
                    s - old(self).spec_guard() <= k < s + num_pages + old(self).spec_guard()
                        ==> !old(self).bits()[k]
                &&& final(self).bits() == old(self).bits_with(s, s + num_pages, true)
                &&& final(self).spec_next_search_start() == s + num_pages
            }),
    {
        // First search from our saved recommended starting location.
        let size = self.bitmap.size();
        let from = self.next_search_start;
        match self.bitmap_alloc_range(num_pages, from, size) {
            Ok(s) => {
                assert(old(self).spec_bitmap_pages() <= s) by {
                    if s < old(self).spec_bitmap_pages() {
                        assert(old(self).bits()[s as int]);
                    }
                }
                Ok(s)
            },
            Err(_) => {
                // Try again from the beginning (skipping the bitmap
                // itself). Still search to the end just in case the
                // first search start was in the middle of a free run.
                let first = self.bitmap_pages();
                self.bitmap_alloc_range(num_pages, first, size)
            },
        }
    }

    /// Where the search start lies after the pages `[start, start +
    /// num_pages)` were released: unchanged if the run lies behind it;
    /// else at most a guard's length before `start`, as far back as the
    /// pages are free.
    pub open spec fn search_start_after_free(&self, start: int, after: Seq<bool>, next: int) -> bool {
        if start >= self.spec_next_search_start() {
            next == self.spec_next_search_start()
        } else if start < self.spec_guard() {
            next == start
        } else {
            &&& start - self.spec_guard() <= next <= start
            &&& forall|k: int| next <= k < start ==> !after[k]
            &&& next > start - self.spec_guard() ==> after[next - 1]
        }
    }

    /// Releases the pages `[start, start + num_pages)` in the bitmap. The
    /// run must lie behind the bitmap's own pages and inside the region,
    /// and every page of it must be allocated: a run with a free page in
    /// it is refused, so that a double free is caught before anything is
    /// unmapped.
    fn bitmap_free(&mut self, start: usize, num_pages: usize) -> (r: Result<(), ErrNO>)
        requires
            old(self).wf(),
            old(self).spec_alloc_base() != 0,
        ensures
            final(self).wf(),
            final(self).spec_alloc_base() == old(self).spec_alloc_base(),
            final(self).spec_guard() == old(self).spec_guard(),
            final(self).spec_page_state() == old(self).spec_page_state(),
            final(self).spec_align_log2() == old(self).spec_align_log2(),
            final(self).spec_bitmap_pages() == old(self).spec_bitmap_pages(),
            r == (if start < old(self).spec_bitmap_pages() || start + num_pages > old(self).bits().len() {
                Err::<(), ErrNO>(ErrNO::InvalidArgs)
            } else if exists|k: int| start <= k < start + num_pages && !old(self).bits()[k] {
                Err::<(), ErrNO>(ErrNO::BadState)
            } else {
                Ok::<(), ErrNO>(())
            }),
            r is Err ==> *final(self) == *old(self),
            r is Ok ==> final(self).bits() == old(self).bits_with(
                start as int,
                start + num_pages,
                false,
            ) && old(self).search_start_after_free(
                start as int,
                final(self).bits(),
                final(self).spec_next_search_start() as int,
            ),
    {
        let size = self.bitmap.size();
        if start < self.bitmap_pages() || start > size || num_pages > size - start {
            return Err(ErrNO::InvalidArgs);
        }
        let mut dummy: usize = 0;
        if !self.bitmap.scan(start, start + num_pages, true, &mut dummy) {
            assert(!old(self).bits()[dummy as int]);
            return Err(ErrNO::BadState);
        }
        let ghost before = self.bitmap;
        let res = self.bitmap.clear(start, start + num_pages);
        proof {
            before.lemma_storage_len();
            self.bitmap.lemma_storage_len();
            assert(self.bits() =~= old(self).bits_with(start as int, start + num_pages, false));
        }
        if start < self.next_search_start {
            self.next_search_start = start;
            // To attempt to keep allocations compact check alloc_guard
            // bits backwards, and move our search start if unset. This
            // ensures that if we alloc and free that our search start gets
            // reset to where it was, otherwise it would
            // constantly creep by alloc_guard.
            if self.next_search_start >= self.alloc_guard {
                let mut candidate: usize = 0;
                if self.bitmap.reverse_scan(
                    self.next_search_start - self.alloc_guard,
                    self.next_search_start,
                    false,
                    &mut candidate,
                ) {
                    self.next_search_start -= self.alloc_guard;
                } else {
                    self.next_search_start = candidate + 1;
                }
            }
        }
        Ok(())
    }

    /// The pages in a unit of alignment of the region.
    pub open spec fn spec_align_pages(&self) -> int {
        spec_align(self.spec_align_log2() as int) / (PAGE_SIZE as int)
    }

    /// No allocation is aligned beyond a page.
    pub open spec fn page_mode(&self) -> bool {
        self.spec_align_log2() <= PAGE_SHIFT
    }

    /// An allocation of `pages` pages is placed at a multiple of the
    /// alignment of the region and backed by aligned runs of physically
    /// contiguous pages: the alignment is above that of a page, and the
    /// allocation has at least a unit of it.
    pub open spec fn uses_aligned(&self, pages: usize) -> bool {
        self.spec_align_log2() > PAGE_SHIFT && pages >= self.spec_align_pages()
    }

    /// A run of `len` free pages inside the region starts at page `f`, at
    /// or behind page `from`, and the page behind its guard is a multiple
    /// of the alignment.
    pub closed spec fn aligned_run_start(&self, f: int, from: int, len: int) -> bool {
        self.bitmap.is_run_start(f, from, self.bitmap.spec_size() as int, len, false) && (f
            + self.alloc_guard) % self.spec_align_pages() == 0
    }

    /// Some aligned run of `len` free pages lies at or behind page `from`.
    pub closed spec fn has_aligned_run(&self, from: int, len: int) -> bool {
        exists|f: int| self.aligned_run_start(f, from, len)
    }

    /// Where the first aligned run of `len` free pages at or behind page
    /// `from` starts.
    pub closed spec fn first_aligned_run(&self, from: int, len: int) -> int {
        choose|f: int|
            self.aligned_run_start(f, from, len) && forall|t: int|
                t < f ==> !self.aligned_run_start(t, from, len)
    }

    /// An aligned run start with none before it is the first.
    proof fn lemma_first_aligned(&self, f: int, from: int, len: int)
        requires
            self.aligned_run_start(f, from, len),
            forall|t: int| t < f ==> !self.aligned_run_start(t, from, len),
        ensures
            self.has_aligned_run(from, len),
            self.first_aligned_run(from, len) == f,
    {
        let c = self.first_aligned_run(from, len);
        assert(self.aligned_run_start(c, from, len) && forall|t: int|
            t < c ==> !self.aligned_run_start(t, from, len));
        if c < f {
            assert(!self.aligned_run_start(c, from, len));
        }
        if f < c {
            assert(!self.aligned_run_start(f, from, len));
        }
    }

    /// Where an aligned allocation of `n` pages is placed when the search
    /// begins at page `from`.
    pub open spec fn aligned_run_from(&self, from: int, n: int) -> Option<int> {
        let len = n + 2 * self.spec_guard();
        if 0 <= from < self.bits().len() && self.has_aligned_run(from, len) {
            Some(self.first_aligned_run(from, len) + self.spec_guard())
        } else {
            None
        }
    }

    /// Where an aligned allocation of `n` pages is placed: searched first
    /// from the recorded search start, then from the end of the bitmap's
    /// own pages.
    pub open spec fn spec_bitmap_alloc_aligned(&self, n: int) -> Option<int> {
        match self.aligned_run_from(self.spec_next_search_start() as int, n) {
            Some(s) => Some(s),
            None => self.aligned_run_from(self.spec_bitmap_pages() as int, n),
        }
    }

    /// Where an allocation of `pages` pages is placed.
    pub open spec fn spec_alloc_start(&self, pages: usize) -> Option<int> {
        if self.uses_aligned(pages) {
            self.spec_bitmap_alloc_aligned(pages as int)
        } else {
            self.spec_bitmap_alloc(pages as int)
        }
    }

    /// The pages in a unit of alignment of the region.
    fn align_pages(&self) -> (r: usize)
        requires
            self.wf(),
            self.spec_alloc_base() != 0,
        ensures
            r == self.spec_align_pages(),
            r >= 1,
            r * PAGE_SIZE == spec_align(self.spec_align_log2() as int),
    {
        proof {
            lemma_align_pages(self.align_log2 as int);
        }
        align_of(self.align_log2).unwrap() / PAGE_SIZE
    }

    /// An aligned run start is the start of a run of free pages that lies
    /// behind any page at or before it, and is a multiple of the alignment
    /// behind its guard.
    proof fn lemma_aligned_run(&self, t: int, from: int, len: int, cur: int)
        requires
            self.aligned_run_start(t, from, len),
        ensures
            from <= t,
            t + len <= self.bitmap.spec_size(),
            (t + self.spec_guard()) % self.spec_align_pages() == 0,
            cur <= t ==> self.bitmap.is_run_start(
                t,
                cur,
                self.bitmap.spec_size() as int,
                len,
                false,
            ),
    {
    }

    /// No aligned run starts before the first run of free pages that lies
    /// behind page `cur`, where none starts before `cur`.
    proof fn lemma_none_before_run(&self, from: int, len: int, cur: int)
        requires
            from <= cur,
            forall|t: int| t < cur ==> !self.aligned_run_start(t, from, len),
            self.bitmap.has_run(cur, self.bitmap.spec_size() as int, len, false),
        ensures
            forall|t: int|
                t < self.bitmap.first_run(cur, self.bitmap.spec_size() as int, len, false)
                    ==> !self.aligned_run_start(t, from, len),
            (self.bitmap.first_run(cur, self.bitmap.spec_size() as int, len, false)
                + self.spec_guard()) % self.spec_align_pages() == 0 ==> self.aligned_run_start(
                self.bitmap.first_run(cur, self.bitmap.spec_size() as int, len, false),
                from,
                len,
            ),
    {
        let size = self.bitmap.spec_size() as int;
        let f = self.bitmap.first_run(cur, size, len, false);
        self.bitmap.lemma_first_run_is_least(cur, size, len, false);
        assert forall|t: int| t < f implies !self.aligned_run_start(t, from, len) by {
            if t >= cur && self.aligned_run_start(t, from, len) {
                self.lemma_aligned_run(t, from, len, cur);
            }
        }
    }

    /// No aligned run starts before the next multiple of the alignment
    /// behind the guard of page `f`, where none starts before `f` and `f`
    /// is `r` pages behind such a multiple.
    proof fn lemma_none_before_multiple(&self, from: int, len: int, f: int, r: int)
        requires
            forall|t: int| t < f ==> !self.aligned_run_start(t, from, len),
            0 <= f,
            self.spec_align_pages() >= 1,
            r == (f + self.spec_guard()) % self.spec_align_pages(),
            r != 0,
        ensures
            forall|t: int|
                t < f + (self.spec_align_pages() - r) ==> !self.aligned_run_start(t, from, len),
    {
        let ap = self.spec_align_pages();
        let g = self.spec_guard() as int;
        assert forall|t: int| t < f + (ap - r) implies !self.aligned_run_start(t, from, len) by {
            if t >= f && self.aligned_run_start(t, from, len) {
                vstd::arithmetic::div_mod::lemma_fundamental_div_mod(f + g, ap);
                let q = (f + g) / ap;
                vstd::arithmetic::div_mod::lemma_fundamental_div_mod_converse(
                    t + g,
                    ap,
                    q,
                    r + (t - f),
                );
            }
        }
    }

    /// No aligned run starts anywhere, where none starts before page `cur`
    /// and no run of free pages lies behind it.
    proof fn lemma_none_at_all(&self, from: int, len: int, cur: int)
        requires
            forall|t: int| t < cur ==> !self.aligned_run_start(t, from, len),
            cur >= self.bitmap.spec_size() || !self.bitmap.has_run(
                cur,
                self.bitmap.spec_size() as int,
                len,
                false,
            ),
            0 <= len,
        ensures
            !self.has_aligned_run(from, len),
    {
        let size = self.bitmap.spec_size() as int;
        assert forall|t: int| !self.aligned_run_start(t, from, len) by {
            if t >= cur && self.aligned_run_start(t, from, len) {
                self.lemma_aligned_run(t, from, len, cur);
                if cur < size {
                    self.bitmap.lemma_has_run(t, cur, size, len, false);
                }
            }
        }
    }

    /// Finds where an aligned allocation of `num_pages` pages is placed
    /// when the search begins at page `from`.
    fn bitmap_find_aligned(&self, num_pages: usize, from: usize) -> (r: Option<usize>)
        requires
            self.wf(),
            self.spec_alloc_base() != 0,
            num_pages > 0,
        ensures
            r is Some <==> self.aligned_run_from(from as int, num_pages as int) is Some,
            r is Some ==> ({
                let s = r->Some_0 as int;
                &&& s == self.aligned_run_from(from as int, num_pages as int)->Some_0
                &&& from + self.spec_guard() <= s
                &&& s + num_pages + self.spec_guard() <= self.bits().len()
                &&& s % self.spec_align_pages() == 0
                &&& forall|k: int|
                    s - self.spec_guard() <= k < s + num_pages + self.spec_guard()
                        ==> !self.bits()[k]
            }),
    {
        let g = self.alloc_guard;
        let size = self.bitmap.size();
        let unit = self.align_pages();
        proof {
            self.bitmap.lemma_storage_len();
        }
        if num_pages > usize::MAX - g * 2 {
            proof {
                let len = num_pages + 2 * g;
                if self.has_aligned_run(from as int, len) {
                    let f = choose|f: int| self.aligned_run_start(f, from as int, len);
                    self.lemma_aligned_run(f, from as int, len, 0);
                }
            }
            return None;
        }
        let len = num_pages + g * 2;
        if from >= size {
            return None;
        }
        let mut cur = from;
        loop
            invariant
                self.wf(),
                self.spec_alloc_base() != 0,
                g == self.spec_guard(),
                size == self.bitmap.spec_size(),
                size == self.bits().len(),
                unit == self.spec_align_pages(),
                unit >= 1,
                num_pages > 0,
                len == num_pages + 2 * g,
                from <= cur,
                from < size,
                forall|t: int| t < cur ==> !self.aligned_run_start(t, from as int, len as int),
            decreases size - cur,
        {
            if cur >= size {
                proof {
                    self.lemma_none_at_all(from as int, len as int, cur as int);
                }
                return None;
            }
            let f = match self.bitmap.find(false, cur, size, len) {
                Err(_) => {
                    proof {
                        self.lemma_none_at_all(from as int, len as int, cur as int);
                    }
                    return None;
                },
                Ok(f) => f,
            };
            proof {
                self.lemma_none_before_run(from as int, len as int, cur as int);
                self.bitmap.lemma_first_run_is_least(cur as int, size as int, len as int, false);
            }
            let behind = (f + g) % unit;
            if behind == 0 {
                proof {
                    self.lemma_first_aligned(f as int, from as int, len as int);
                    self.lemma_free_between(f as int, cur as int, len as int);
                }
                return Some(f + g);
            }
            proof {
                self.lemma_none_before_multiple(from as int, len as int, f as int, behind as int);
            }
            if unit - behind >= size - f {
                proof {
                    assert forall|t: int| !self.aligned_run_start(t, from as int, len as int) by {
                        if self.aligned_run_start(t, from as int, len as int) {
                            self.lemma_aligned_run(t, from as int, len as int, 0);
                        }
                    }
                }
                return None;
            }
            cur = f + (unit - behind);
        }
    }

    /// The pages of a run of free pages are free.
    proof fn lemma_free_between(&self, f: int, cur: int, len: int)
        requires
            self.bitmap_wf(),
            self.bitmap.is_run_start(f, cur, self.bitmap.spec_size() as int, len, false),
            0 <= cur,
        ensures
            forall|k: int| f <= k < f + len ==> !self.bits()[k],
    {
    }

    /// Finds where an aligned allocation of `num_pages` pages is placed.
    fn bitmap_search_aligned(&self, num_pages: usize) -> (r: Option<usize>)
        requires
            self.wf(),
            self.spec_alloc_base() != 0,
            num_pages > 0,
        ensures
            r is Some <==> self.spec_bitmap_alloc_aligned(num_pages as int) is Some,
            r is Some ==> ({
                let s = r->Some_0 as int;
                &&& s == self.spec_bitmap_alloc_aligned(num_pages as int)->Some_0
                &&& self.spec_bitmap_pages() <= s
                &&& s + num_pages + self.spec_guard() <= self.bits().len()
                &&& s % self.spec_align_pages() == 0
                &&& forall|k: int|
                    s - self.spec_guard() <= k < s + num_pages + self.spec_guard()
                        ==> !self.bits()[k]
            }),
    {
        let first = self.bitmap_pages();
        let from = self.next_search_start;
        let found = match self.bitmap_find_aligned(num_pages, from) {
            Some(s) => Some(s),
            None => self.bitmap_find_aligned(num_pages, first),
        };
        proof {
            if found is Some {
                let s = found->Some_0;
                if s < self.spec_bitmap_pages() {
                    assert(self.bits()[s as int]);
                }
            }
        }
        found
    }

    /// Marks the `num_pages` free pages from page `start` on allocated,
    /// and records their end as the next search start.
    fn bitmap_mark(&mut self, start: usize, num_pages: usize)
        requires
            old(self).wf(),
            old(self).spec_alloc_base() != 0,
            num_pages > 0,
            start + num_pages <= old(self).bits().len(),
        ensures
            final(self).wf(),
            final(self).spec_alloc_base() == old(self).spec_alloc_base(),
            final(self).spec_guard() == old(self).spec_guard(),
            final(self).spec_page_state() == old(self).spec_page_state(),
            final(self).spec_align_log2() == old(self).spec_align_log2(),
            final(self).spec_bitmap_pages() == old(self).spec_bitmap_pages(),
            final(self).bits() == old(self).bits_with(start as int, start + num_pages, true),
            final(self).spec_next_search_start() == start + num_pages,
    {
        self.next_search_start = start + num_pages;
        let ghost before = self.bitmap;
        let res = self.bitmap.set(start, start + num_pages);
        proof {
            before.lemma_storage_len();
            self.bitmap.lemma_storage_len();
            assert(self.bits() =~= old(self).bits_with(start as int, start + num_pages, true));
        }
    }

    /// The physical page that backs page `i` of the region in `aspace`.
    pub open spec fn backing(&self, aspace: &VmAspace, i: int) -> usize {
        aspace.mappings()[self.page_va(i)].0
    }

    /// The region is backed as the bitmap says: it lies inside `aspace`;
    /// a page of it is mapped exactly when it is allocated; and the
    /// allocated pages are mapped to managed physical pages of `pmm`, each
    /// to one of its own, that have the state this allocator gives them.
    pub open spec fn backed(&self, pmm: &PmmNode, aspace: &VmAspace) -> bool {
        self.spec_alloc_base() != 0 ==> {
            &&& aspace.range_valid(self.spec_alloc_base(), self.bits().len() as usize)
            &&& forall|i: int|
                0 <= i < self.bits().len() ==> #[trigger] self.bits()[i]
                    == aspace.mappings().contains_key(self.page_va(i))
            &&& forall|i: int|
                0 <= i < self.bits().len() && self.bits()[i] ==> pmm.manages(
                    #[trigger] self.backing(aspace, i),
                ) && pmm.page_at(self.backing(aspace, i)).spec_state() == self.spec_page_state()
            &&& forall|i: int, j: int|
                0 <= i < j < self.bits().len() && self.bits()[i] && self.bits()[j]
                    ==> #[trigger] self.backing(aspace, i) != #[trigger] self.backing(aspace, j)
        }
    }

    /// Gives the allocated pages `paddrs` the state of this allocator and
    /// maps them at `va` and the pages that follow it, which must lie in
    /// `aspace` and be unmapped.
    fn back_pages(&self, va: vaddr_t, paddrs: &Vec<usize>, pmm: &mut PmmNode, aspace: &mut VmAspace)
        requires
            self.spec_page_state() != vm_page_state::FREE,
            old(pmm).wf(),
            old(aspace).wf(),
            paddrs@.len() > 0,
            va % PAGE_SIZE == 0,
            old(aspace).range_valid(va, paddrs@.len() as usize),
            forall|x: usize|
                in_run(va as int, paddrs@.len() as int, x as int) ==> !old(aspace).mappings().contains_key(x),
            paddrs@.no_duplicates(),
            forall|i: int|
                0 <= i < paddrs@.len() ==> old(pmm).manages(#[trigger] paddrs@[i]) && old(pmm).page_at(paddrs@[i]).spec_state() == vm_page_state::ALLOC,
        ensures
            final(pmm).wf(),
            final(aspace).wf(),
            final(aspace).spec_base() == old(aspace).spec_base(),
            final(aspace).spec_size() == old(aspace).spec_size(),
            final(pmm).free_pages() == old(pmm).free_pages(),
            old(pmm).updated(final(pmm), paddrs@.to_set(), self.spec_page_state()),
            final(aspace).mappings() == mapped(
                old(aspace).mappings(),
                va as int,
                paddrs@,
                paddrs@.len() as int,
            ),
    {
        let mmu_flags = ARCH_MMU_FLAG_CACHED | ARCH_MMU_FLAG_PERM_READ | ARCH_MMU_FLAG_PERM_WRITE;
        let num_pages = paddrs.len();
        let ghost taken = paddrs@;
        pmm.set_states(paddrs, self.allocated_page_state);
        proof {
            assert forall|j: int| 0 <= j < num_pages implies #[trigger] paddrs@[j] % PAGE_SIZE
                == 0 by {
                assert(old(pmm).manages(taken[j]));
            }
            lemma_flags_readable();
            assert forall|j: int| 0 <= j < num_pages implies !aspace.mappings().contains_key(
                #[trigger] ((va + j * PAGE_SIZE) as usize),
            ) by {
                lemma_in_run_at(va as int, num_pages as int, j);
            }
            crate::aspace::lemma_first_conflict(
                aspace.mappings(),
                va as int,
                num_pages as int,
                num_pages as int,
            );
        }
        let mapped_count = aspace.map(
            va,
            paddrs.as_slice(),
            num_pages,
            mmu_flags,
            ExistingEntryAction::Error,
        );
        assert(mapped_count is Ok);
    }

    /// Takes `num_pages` pages from the head of the free list of `pmm`,
    /// gives them the state of this allocator and maps them at `va` and
    /// the pages that follow it, which must lie in `aspace` and be
    /// unmapped. Nothing happens unless that many pages are free.
    fn alloc_map_pages(&self, va: vaddr_t, num_pages: usize, pmm: &mut PmmNode, aspace: &mut VmAspace)
        -> (r: Result<(), ErrNO>)
        requires
            self.spec_page_state() != vm_page_state::FREE,
            old(pmm).wf(),
            old(aspace).wf(),
            num_pages > 0,
            va % PAGE_SIZE == 0,
            old(aspace).range_valid(va, num_pages),
            forall|x: usize|
                in_run(va as int, num_pages as int, x as int) ==> !old(aspace).mappings().contains_key(x),
        ensures
            final(pmm).wf(),
            final(aspace).wf(),
            final(aspace).spec_base() == old(aspace).spec_base(),
            final(aspace).spec_size() == old(aspace).spec_size(),
            r is Err <==> num_pages > old(pmm).spec_free_count(),
            r is Err ==> r == Err::<(), ErrNO>(ErrNO::NoMem) && final(pmm).free_pages() == old(pmm).free_pages() && old(pmm).updated(final(pmm), Set::empty(), self.spec_page_state())
                && final(aspace).mappings() == old(aspace).mappings(),
            r is Ok ==> ({
                let taken = old(pmm).free_pages().subrange(0, num_pages as int);
                &&& final(pmm).free_pages() == old(pmm).free_pages().subrange(
                    num_pages as int,
                    old(pmm).free_pages().len() as int,
                )
                &&& old(pmm).updated(final(pmm), taken.to_set(), self.spec_page_state())
                &&& final(aspace).mappings() == mapped(
                    old(aspace).mappings(),
                    va as int,
                    taken,
                    num_pages as int,
                )
            }),
    {
        let mut alloc_pages = List::<vm_page_t>::new();
        alloc_pages.init();
        match pmm.alloc_pages(num_pages, 0, &mut alloc_pages) {
            Err(e) => {
                proof {
                    lemma_updated_nothing(old(pmm), final(pmm), self.spec_page_state());
                }
                return Err(e);
            },
            Ok(_) => {},
        }
        let ghost taken = old(pmm).free_pages().subrange(0, num_pages as int);
        let ghost mid = *pmm;
        assert(alloc_pages@ =~= taken);
        let paddrs = alloc_pages.iter();
        proof {
            assert forall|i: int| 0 <= i < paddrs@.len() implies pmm.manages(#[trigger] paddrs@[i])
                && pmm.page_at(paddrs@[i]).spec_state() == vm_page_state::ALLOC by {
                let p = paddrs@[i];
                assert(p == old(pmm).free_pages()[i]);
                assert(old(pmm).manages(old(pmm).free_pages()[i]));
                assert(taken.to_set().contains(p));
                crate::page::vm_page::lemma_with(old(pmm).page_at(p), vm_page_state::ALLOC, false);
                crate::page::vm_page::lemma_with(
                    old(pmm).page_at(p).with_state(vm_page_state::ALLOC),
                    vm_page_state::ALLOC,
                    false,
                );
            }
            assert(paddrs@.no_duplicates()) by {
                assert forall|i: int, j: int| 0 <= i < j < paddrs@.len() implies paddrs@[i]
                    != paddrs@[j] by {
                    assert(old(pmm).free_pages()[i] != old(pmm).free_pages()[j]);
                }
            }
        }
        self.back_pages(va, &paddrs, pmm, aspace);
        proof {
            old(pmm).lemma_updated_restate(&mid, &*pmm, taken.to_set(), self.spec_page_state());
        }
        Ok(())
    }

    /// The physical pages that back the `n` pages from page `start` of the
    /// region on, in that order.
    pub open spec fn backing_run(&self, aspace: &VmAspace, start: int, n: int) -> Seq<usize> {
        Seq::new(n as nat, |k: int| self.backing(aspace, start + k))
    }

    /// Unmaps the `pages` pages from page `start` of the region on and
    /// returns the physical pages behind them to `pmm`.
    fn unmap_free_pages(&self, start: usize, pages: usize, pmm: &mut PmmNode, aspace: &mut VmAspace)
        requires
            self.wf(),
            self.spec_alloc_base() != 0,
            old(pmm).wf(),
            old(aspace).wf(),
            pages > 0,
            start + pages <= self.bits().len(),
            old(aspace).range_valid(self.spec_alloc_base(), self.bits().len() as usize),
            forall|i: int|
                start <= i < start + pages ==> #[trigger] old(aspace).mappings().contains_key(
                    self.page_va(i),
                ),
            forall|i: int|
                start <= i < start + pages ==> old(pmm).manages(
                    #[trigger] self.backing(old(aspace), i),
                ) && old(pmm).page_at(self.backing(old(aspace), i)).spec_state()
                    != vm_page_state::FREE,
            forall|i: int, j: int|
                start <= i < j < start + pages ==> #[trigger] self.backing(old(aspace), i)
                    != #[trigger] self.backing(old(aspace), j),
        ensures
            final(pmm).wf(),
            final(aspace).wf(),
            final(aspace).spec_base() == old(aspace).spec_base(),
            final(aspace).spec_size() == old(aspace).spec_size(),
            final(aspace).mappings() == unmapped(
                old(aspace).mappings(),
                self.page_va(start as int) as int,
                pages as int,
            ),
            final(pmm).free_pages() == old(pmm).free_pages() + self.backing_run(
                old(aspace),
                start as int,
                pages as int,
            ),
            old(pmm).updated(
                final(pmm),
                self.backing_run(old(aspace), start as int, pages as int).to_set(),
                vm_page_state::FREE,
            ),
    {
        let va = self.alloc_base + start * PAGE_SIZE;
        let ghost run = self.backing_run(old(aspace), start as int, pages as int);
        let mut free_list = List::<vm_page_t>::new();
        free_list.init();
        let mut i: usize = 0;
        while i < pages
            invariant
                i <= pages,
                self.wf(),
                self.spec_alloc_base() != 0,
                *aspace == *old(aspace),
                aspace.wf(),
                start + pages <= self.bits().len(),
                aspace.range_valid(self.spec_alloc_base(), self.bits().len() as usize),
                va == self.spec_alloc_base() + start * PAGE_SIZE,
                forall|k: int|
                    start <= k < start + pages ==> #[trigger] aspace.mappings().contains_key(
                        self.page_va(k),
                    ),
                free_list.spec_is_initialized(),
                free_list@ == self.backing_run(&*aspace, start as int, i as int),
            decreases pages - i,
        {
            let v = va + i * PAGE_SIZE;
            proof {
                assert(v == self.page_va(start + i));
                assert(aspace.mappings().contains_key(self.page_va(start + i)));
                crate::align::lemma_rounddown(v as int, PAGE_SIZE as int);
            }
            let q = aspace.query(v);
            let pa = match q {
                Ok((pa, _)) => pa,
                Err(_) => 0,
            };
            free_list.add_tail(pa);
            proof {
                assert(free_list@ =~= self.backing_run(&*aspace, start as int, i + 1));
            }
            i += 1;
        }
        proof {
            assert(aspace.range_valid(va, pages)) by {
                assert(va == self.page_va(start as int));
            }
        }
        let unmapped_count = aspace.unmap(va, pages, false);
        proof {
            assert(unmapped_count is Ok);
            assert(old(pmm).freeable(free_list@, pages as int)) by {
                assert(free_list@.take(pages as int) =~= free_list@);
                assert forall|a: int, b: int| 0 <= a < b < run.len() implies run[a] != run[b] by {
                    assert(self.backing(old(aspace), start + a) != self.backing(
                        old(aspace),
                        start + b,
                    ));
                }
                assert forall|j: int| 0 <= j < pages implies old(pmm).manages(
                    #[trigger] free_list@[j],
                ) && old(pmm).page_at(free_list@[j]).spec_state() != vm_page_state::FREE by {
                    assert(free_list@[j] == self.backing(old(aspace), start + j));
                }
            }
        }
        let freed = pmm.free_list(&free_list);
        proof {
            assert(freed is Ok);
            assert(free_list@.take(pages as int) =~= free_list@);
            let k = choose|k: int|
                 {
                    &&& 0 <= k <= free_list@.len()
                    &&& (k == free_list@.len() <==> freed is Ok)
                    &&& pmm.free_pages() == old(pmm).free_pages() + #[trigger] free_list@.take(k)
                    &&& old(pmm).updated(
                        &*pmm,
                        free_list@.take(k).to_set(),
                        vm_page_state::FREE,
                    )
                };
            assert(k == pages);
        }
    }

    /// Allocates `pages` pages where they fit first, backed by pages from
    /// the head of the free list of `pmm`.
    fn alloc_pages_plain(&mut self, pages: usize, pmm: &mut PmmNode, aspace: &mut VmAspace) -> (r:
        Result<vaddr_t, ErrNO>)
        requires
            old(self).wf(),
            old(pmm).wf(),
            old(aspace).wf(),
            old(self).backed(old(pmm), old(aspace)),
        ensures
            final(self).wf(),
            final(pmm).wf(),
            final(aspace).wf(),
            final(self).backed(final(pmm), final(aspace)),
            final(self).spec_alloc_base() == old(self).spec_alloc_base(),
            final(self).spec_guard() == old(self).spec_guard(),
            final(self).spec_page_state() == old(self).spec_page_state(),
            final(self).spec_align_log2() == old(self).spec_align_log2(),
            final(self).spec_bitmap_pages() == old(self).spec_bitmap_pages(),
            final(self).bits().len() == old(self).bits().len(),
            final(aspace).spec_base() == old(aspace).spec_base(),
            final(aspace).spec_size() == old(aspace).spec_size(),
            r == Err::<vaddr_t, ErrNO>(ErrNO::BadState) <==> old(self).spec_alloc_base() == 0,
            r == Err::<vaddr_t, ErrNO>(ErrNO::InvalidArgs) <==> old(self).spec_alloc_base() != 0
                && pages == 0,
            r == Err::<vaddr_t, ErrNO>(ErrNO::NoMem) <==> old(self).spec_alloc_base() != 0 && pages
                > 0 && (pages > old(pmm).spec_free_count() || old(self).spec_bitmap_alloc(
                pages as int,
            ) is None),
            r is Err ==> (r == Err::<vaddr_t, ErrNO>(ErrNO::BadState) || r == Err::<vaddr_t, ErrNO>(
                ErrNO::InvalidArgs,
            ) || r == Err::<vaddr_t, ErrNO>(ErrNO::NoMem)) && final(self).bits() == old(self).bits()
                && final(self).spec_next_search_start() == old(self).spec_next_search_start()
                && final(pmm).free_pages() == old(pmm).free_pages() && old(pmm).updated(
                final(pmm),
                Set::empty(),
                old(self).spec_page_state(),
            ) && final(aspace).mappings() == old(aspace).mappings(),
            r is Err ==> *final(self) == *old(self) && *final(pmm) == *old(pmm) && *final(aspace)
                == *old(aspace),
            r is Ok ==> ({
                let s = old(self).spec_bitmap_alloc(pages as int)->Some_0;
                let g = old(self).spec_guard() as int;
                let taken = old(pmm).free_pages().subrange(0, pages as int);
                &&& r->Ok_0 == old(self).page_va(s)
                &&& old(self).spec_bitmap_pages() <= s
                &&& s + pages + g <= old(self).bits().len()
                &&& forall|k: int| s - g <= k < s + pages + g ==> !old(self).bits()[k]
                &&& final(self).bits() == old(self).bits_with(s, s + pages, true)
                &&& final(self).spec_next_search_start() == s + pages
                &&& final(pmm).free_pages() == old(pmm).free_pages().subrange(
                    pages as int,
                    old(pmm).free_pages().len() as int,
                )
                &&& old(pmm).updated(final(pmm), taken.to_set(), old(self).spec_page_state())
                &&& final(aspace).mappings() == mapped(
                    old(aspace).mappings(),
                    r->Ok_0 as int,
                    taken,
                    pages as int,
                )
            }),
    {
        proof {
            lemma_updated_same(old(pmm), self.spec_page_state());
        }
        if self.alloc_base == 0 {
            return Err(ErrNO::BadState);
        }
        if pages == 0 {
            return Err(ErrNO::InvalidArgs);
        }
        if pages > pmm.free_count() {
            return Err(ErrNO::NoMem);
        }
        // Allocate space from the bitmap, it will set the bits and ensure
        // padding is left around the allocation.
        let start = match self.bitmap_alloc(pages) {
            Err(_) => {
                return Err(ErrNO::NoMem);
            },
            Ok(start) => start,
        };
        // Turn the bitmap index into a virtual address and allocate the
        // pages there.
        let vstart = self.alloc_base + start * PAGE_SIZE;
        proof {
            assert forall|x: usize| in_run(vstart as int, pages as int, x as int) implies !aspace.mappings().contains_key(
                x,
            ) by {
                let i = start + (x - vstart) / (PAGE_SIZE as int);
                assert(x == old(self).page_va(i));
                assert(!old(self).bits()[i]);
            }
        }
        let res = self.alloc_map_pages(vstart, pages, pmm, aspace);
        proof {
            assert(res is Ok);
            self.lemma_alloc_backed(old(self), old(pmm), old(aspace), pmm, aspace, start as int, pages as int);
        }
        Ok(vstart)
    }

    /// The runs of allocated pages are set apart by at least as many free
    /// pages as the guard has.
    pub open spec fn spec_guarded(&self) -> bool {
        guarded(self.bits(), self.spec_guard() as int)
    }

    /// Pages that are allocated between two guards of free pages leave
    /// the runs of allocated pages set apart as they were.
    pub proof fn lemma_alloc_guarded(&self, s: int, n: int)
        requires
            self.spec_guarded(),
            0 < n,
            0 <= s,
            s + n + self.spec_guard() <= self.bits().len(),
            forall|k: int|
                s - self.spec_guard() <= k < s + n + self.spec_guard() ==> !self.bits()[k],
        ensures
            guarded(self.bits_with(s, s + n, true), self.spec_guard() as int),
    {
        let g = self.spec_guard() as int;
        let old = self.bits();
        let new = self.bits_with(s, s + n, true);
        assert forall|i: int, j: int|
            0 <= i && i + 1 < j < new.len() && #[trigger] new[i] && #[trigger] new[j] && (forall|
                k: int,
            |
                i < k < j ==> !new[k]) implies j - i - 1 >= g by {
            let i_new = s <= i < s + n;
            let j_new = s <= j < s + n;
            if i_new && j_new {
                assert(new[i + 1]);
            } else if j_new {
                if j > s {
                    assert(new[j - 1]);
                }
                assert(old[i]);
                if i >= s - g {
                    assert(!old[i]);
                }
            } else if i_new {
                if i < s + n - 1 {
                    assert(new[i + 1]);
                }
                assert(old[j]);
                if j < s + n + g {
                    assert(!old[j]);
                }
            } else {
                assert(old[i] && old[j]);
                if i < s && s < j {
                    assert(new[s]);
                }
                assert forall|k: int| i < k < j implies !old[k] by {
                    assert(!new[k]);
                }
            }
        }
    }

    /// Freeing a whole run of allocated pages, one with a free page or an
    /// edge of the region on either side, leaves the runs of allocated
    /// pages set apart as they were. (Freeing a part of a run need not.)
    pub proof fn lemma_free_guarded(&self, s: int, n: int)
        requires
            self.spec_guarded(),
            0 <= s,
            0 < n,
            s + n <= self.bits().len(),
            forall|k: int| s <= k < s + n ==> self.bits()[k],
            s > 0 ==> !self.bits()[s - 1],
            s + n < self.bits().len() ==> !self.bits()[s + n],
        ensures
            guarded(self.bits_with(s, s + n, false), self.spec_guard() as int),
    {
        let g = self.spec_guard() as int;
        let old = self.bits();
        let new = self.bits_with(s, s + n, false);
        assert forall|i: int, j: int|
            0 <= i && i + 1 < j < new.len() && #[trigger] new[i] && #[trigger] new[j] && (forall|
                k: int,
            |
                i < k < j ==> !new[k]) implies j - i - 1 >= g by {
            assert(old[i] && old[j]);
            if i < s && s + n <= j {
                // The freed run lay between the two: it was set apart
                // from the run before it.
                assert(i + 1 < s) by {
                    if i + 1 == s {
                        assert(!old[s - 1]);
                    }
                }
                assert(old[s]);
                assert forall|k: int| i < k < s implies !old[k] by {
                    assert(!new[k]);
                }
            } else {
                assert forall|k: int| i < k < j implies !old[k] by {
                    assert(!new[k]);
                }
            }
        }
    }

    /// What taking the aligned runs that back an allocation of `pages`
    /// pages makes of the free list of `pmm`: the pages of the runs, and
    /// the free list that is left.
    #[verifier::opaque]
    pub open spec fn spec_carved(&self, pmm: &PmmNode, pages: usize) -> Option<
        (Seq<usize>, Seq<usize>),
    > {
        carved(
            pmm.free_pages(),
            (pages as int / self.spec_align_pages()) as nat,
            self.spec_align_pages(),
            spec_align(self.spec_align_log2() as int),
        )
    }

    /// Whether `alloc_pages(pages)` succeeds: the allocator is initialized,
    /// `pmm` has that many free pages, and the bitmap has room for them
    /// between two guards; and, where the allocation is aligned, `pmm` has
    /// an aligned run of free pages for each unit of alignment in it.
    pub open spec fn can_alloc(&self, pmm: &PmmNode, pages: usize) -> bool {
        &&& self.spec_alloc_base() != 0
        &&& pages > 0
        &&& pages <= pmm.spec_free_count()
        &&& self.spec_alloc_start(pages) is Some
        &&& self.uses_aligned(pages) ==> self.spec_carved(pmm, pages) is Some
    }

    /// Whether an allocation succeeds depends on which pages of the
    /// page-frame allocator are free, not on the order of its free list.
    pub proof fn lemma_can_alloc_same(&self, pmm: &PmmNode, other: &PmmNode, pages: usize)
        requires
            pmm.wf(),
            other.wf(),
            pmm.updated(other, Set::empty(), vm_page_state::ALLOC),
            other.spec_free_count() == pmm.spec_free_count(),
        ensures
            self.can_alloc(other, pages) == self.can_alloc(pmm, pages),
    {
        reveal(VirtualAlloc::spec_carved);
        assert forall|p: usize| pmm.free_pages().contains(p) == other.free_pages().contains(
            p,
        ) by {
            if pmm.free_pages().contains(p) {
                let i = choose|i: int| 0 <= i < pmm.free_pages().len() && pmm.free_pages()[i] == p;
                assert(pmm.manages(pmm.free_pages()[i]));
                assert(other.page_at(p) == pmm.page_at(p));
            }
            if other.free_pages().contains(p) {
                let i = choose|i: int|
                    0 <= i < other.free_pages().len() && other.free_pages()[i] == p;
                assert(other.manages(other.free_pages()[i]));
                assert(pmm.manages(p));
                assert(other.page_at(p) == pmm.page_at(p));
            }
        }
        crate::pmm::lemma_carved_same(
            pmm.free_pages(),
            other.free_pages(),
            (pages as int / self.spec_align_pages()) as nat,
            self.spec_align_pages(),
            spec_align(self.spec_align_log2() as int),
        );
    }

    /// The free list of `pmm` after an aligned allocation of `pages`
    /// pages was refused: unchanged where there are too few free pages or
    /// no place in the region; else the aligned runs that were to be had
    /// were taken out and put back behind its tail.
    pub open spec fn spec_refused_free(&self, pmm: &PmmNode, pages: usize) -> Seq<usize> {
        if pages > pmm.spec_free_count() || self.spec_bitmap_alloc_aligned(pages as int) is None {
            pmm.free_pages()
        } else {
            let part = carved_part(
                pmm.free_pages(),
                (pages as int / self.spec_align_pages()) as nat,
                self.spec_align_pages(),
                spec_align(self.spec_align_log2() as int),
            );
            part.1 + part.0
        }
    }

    /// The physical pages that back an allocation of `pages` pages, in
    /// the order of the virtual pages they back, and the free list of
    /// `pmm` without them. An aligned allocation takes an aligned run for
    /// each unit of alignment in it; all other pages come from the head
    /// of the free list.
    pub open spec fn spec_backing(&self, pmm: &PmmNode, pages: usize) -> (Seq<usize>, Seq<usize>) {
        if self.uses_aligned(pages) {
            let (taken, left) = self.spec_carved(pmm, pages)->Some_0;
            let rest = pages as int % self.spec_align_pages();
            (taken + left.subrange(0, rest), left.subrange(rest, left.len() as int))
        } else {
            (
                pmm.free_pages().subrange(0, pages as int),
                pmm.free_pages().subrange(pages as int, pmm.free_pages().len() as int),
            )
        }
    }

    /// Takes the pages that back an aligned allocation of `pages` pages
    /// from `pmm`: an aligned run for each unit of alignment, and what is
    /// left of them from the head of the free list. Where a run is not to
    /// be had, the pages taken so far go back to the free list.
    fn collect_backing(&self, pages: usize, pmm: &mut PmmNode) -> (r: Result<Vec<usize>, ErrNO>)
        requires
            self.wf(),
            self.spec_alloc_base() != 0,
            self.uses_aligned(pages),
            old(pmm).wf(),
            pages <= old(pmm).spec_free_count(),
        ensures
            final(pmm).wf(),
            r is Ok <==> self.spec_carved(old(pmm), pages) is Some,
            r is Err ==> r == Err::<Vec<usize>, ErrNO>(ErrNO::NoMem) && final(pmm).spec_free_count()
                == old(pmm).spec_free_count() && old(pmm).updated(
                final(pmm),
                Set::empty(),
                vm_page_state::ALLOC,
            ),
            r is Err ==> ({
                let part = carved_part(
                    old(pmm).free_pages(),
                    (pages as int / self.spec_align_pages()) as nat,
                    self.spec_align_pages(),
                    spec_align(self.spec_align_log2() as int),
                );
                final(pmm).free_pages() == part.1 + part.0
            }),
            r is Ok ==> ({
                let (taken, left) = self.spec_backing(old(pmm), pages);
                &&& r->Ok_0@ == taken
                &&& final(pmm).free_pages() == left
                &&& final(pmm).spec_free_count() == old(pmm).spec_free_count() - pages
                &&& taken.len() == pages
                &&& taken.no_duplicates()
                &&& old(pmm).updated(final(pmm), taken.to_set(), vm_page_state::ALLOC)
                &&& forall|i: int|
                    0 <= i < taken.len() ==> old(pmm).manages(#[trigger] taken[i]) && old(pmm).page_at(taken[i]).spec_state() == vm_page_state::FREE && final(pmm).manages(
                        taken[i],
                    ) && final(pmm).page_at(taken[i]).spec_state() == vm_page_state::ALLOC
            }),
    {
        proof {
            reveal(VirtualAlloc::spec_carved);
        }
        let unit = self.align_pages();
        let runs = pages / unit;
        let rest = pages % unit;
        let mut backing = List::<vm_page_t>::new();
        backing.init();
        match pmm.alloc_runs(runs, unit, self.align_log2, &mut backing) {
            Err(e) => {
                return Err(e);
            },
            Ok(_) => {},
        }
        let ghost mid = *pmm;
        let ghost runs_taken = backing@;
        proof {
            vstd::arithmetic::div_mod::lemma_fundamental_div_mod(pages as int, unit as int);
            assert(runs * unit == unit * runs) by (nonlinear_arith);
        }
        match pmm.alloc_pages(rest, 0, &mut backing) {
            Err(e) => {
                return Err(e);
            },
            Ok(_) => {},
        }
        let paddrs = backing.iter();
        proof {
            assert(paddrs@ =~= self.spec_backing(old(pmm), pages).0);
            assert(pmm.free_pages() =~= self.spec_backing(old(pmm), pages).1);
            lemma_backing(old(pmm), &mid, &*pmm, runs_taken, rest as int);
        }
        Ok(paddrs)
    }

    /// Marks the free pages from page `start` on allocated, as many as
    /// `paddrs` has pages, and backs them with those pages, which were
    /// taken from the free pages of `origin`; returns the address of the
    /// first.
    fn install(
        &mut self,
        start: usize,
        paddrs: &Vec<usize>,
        pmm: &mut PmmNode,
        aspace: &mut VmAspace,
        Ghost(origin): Ghost<PmmNode>,
    ) -> (r: vaddr_t)
        requires
            old(self).wf(),
            old(self).spec_alloc_base() != 0,
            origin.wf(),
            old(pmm).wf(),
            old(aspace).wf(),
            old(self).backed(&origin, old(aspace)),
            paddrs@.len() > 0,
            start + paddrs@.len() <= old(self).bits().len(),
            forall|k: int| start <= k < start + paddrs@.len() ==> !old(self).bits()[k],
            paddrs@.no_duplicates(),
            origin.updated(old(pmm), paddrs@.to_set(), vm_page_state::ALLOC),
            forall|i: int|
                0 <= i < paddrs@.len() ==> origin.manages(#[trigger] paddrs@[i]) && origin.page_at(
                    paddrs@[i],
                ).spec_state() == vm_page_state::FREE && old(pmm).manages(paddrs@[i]) && old(pmm).page_at(paddrs@[i]).spec_state() == vm_page_state::ALLOC,
        ensures
            final(self).wf(),
            final(pmm).wf(),
            final(aspace).wf(),
            final(self).backed(final(pmm), final(aspace)),
            final(self).spec_alloc_base() == old(self).spec_alloc_base(),
            final(self).spec_guard() == old(self).spec_guard(),
            final(self).spec_page_state() == old(self).spec_page_state(),
            final(self).spec_align_log2() == old(self).spec_align_log2(),
            final(self).spec_bitmap_pages() == old(self).spec_bitmap_pages(),
            final(aspace).spec_base() == old(aspace).spec_base(),
            final(aspace).spec_size() == old(aspace).spec_size(),
            r == old(self).page_va(start as int),
            final(self).bits() == old(self).bits_with(
                start as int,
                start + paddrs@.len(),
                true,
            ),
            final(self).spec_next_search_start() == start + paddrs@.len(),
            final(pmm).free_pages() == old(pmm).free_pages(),
            origin.updated(final(pmm), paddrs@.to_set(), old(self).spec_page_state()),
            final(aspace).mappings() == mapped(
                old(aspace).mappings(),
                r as int,
                paddrs@,
                paddrs@.len() as int,
            ),
    {
        let pages = paddrs.len();
        let ghost last = *pmm;
        self.bitmap_mark(start, pages);
        let vstart = self.alloc_base + start * PAGE_SIZE;
        proof {
            assert forall|x: usize| in_run(vstart as int, pages as int, x as int) implies !aspace.mappings().contains_key(
                x,
            ) by {
                let i = start + (x - vstart) / (PAGE_SIZE as int);
                assert(x == old(self).page_va(i));
                assert(!old(self).bits()[i]);
            }
        }
        self.back_pages(vstart, paddrs, pmm, aspace);
        proof {
            origin.lemma_updated_restate(&last, &*pmm, paddrs@.to_set(), self.spec_page_state());
            self.lemma_taken_backed(
                old(self),
                &origin,
                old(aspace),
                pmm,
                aspace,
                start as int,
                pages as int,
                paddrs@,
            );
        }
        vstart
    }

    /// Allocates `pages` pages at the first multiple of the alignment
    /// where they fit, backed by aligned runs of physically contiguous
    /// pages and, for what is left of them, by pages from the head of the
    /// free list of `pmm`.
    fn alloc_pages_aligned(&mut self, pages: usize, pmm: &mut PmmNode, aspace: &mut VmAspace) -> (r:
        Result<vaddr_t, ErrNO>)
        requires
            old(self).wf(),
            old(pmm).wf(),
            old(aspace).wf(),
            old(self).backed(old(pmm), old(aspace)),
            old(self).spec_alloc_base() != 0,
            old(self).uses_aligned(pages),
        ensures
            final(self).wf(),
            final(pmm).wf(),
            final(aspace).wf(),
            final(self).backed(final(pmm), final(aspace)),
            final(self).spec_alloc_base() == old(self).spec_alloc_base(),
            final(self).spec_guard() == old(self).spec_guard(),
            final(self).spec_page_state() == old(self).spec_page_state(),
            final(self).spec_align_log2() == old(self).spec_align_log2(),
            final(self).spec_bitmap_pages() == old(self).spec_bitmap_pages(),
            final(self).bits().len() == old(self).bits().len(),
            final(aspace).spec_base() == old(aspace).spec_base(),
            final(aspace).spec_size() == old(aspace).spec_size(),
            r is Ok <==> old(self).can_alloc(old(pmm), pages),
            r is Err ==> r == Err::<vaddr_t, ErrNO>(ErrNO::NoMem) && final(self).bits() == old(self).bits() && final(self).spec_next_search_start() == old(self).spec_next_search_start()
                && final(pmm).spec_free_count() == old(pmm).spec_free_count() && old(pmm).updated(
                final(pmm),
                Set::empty(),
                old(self).spec_page_state(),
            ) && final(aspace).mappings() == old(aspace).mappings(),
            r is Err ==> final(pmm).free_pages() == old(self).spec_refused_free(old(pmm), pages),
            r is Err ==> *final(self) == *old(self) && *final(aspace) == *old(aspace),
            r is Ok ==> ({
                let s = old(self).spec_bitmap_alloc_aligned(pages as int)->Some_0;
                let g = old(self).spec_guard() as int;
                let (taken, left) = old(self).spec_backing(old(pmm), pages);
                &&& r->Ok_0 == old(self).page_va(s)
                &&& old(self).spec_bitmap_pages() <= s
                &&& s + pages + g <= old(self).bits().len()
                &&& s % old(self).spec_align_pages() == 0
                &&& forall|k: int| s - g <= k < s + pages + g ==> !old(self).bits()[k]
                &&& final(self).bits() == old(self).bits_with(s, s + pages, true)
                &&& final(self).spec_next_search_start() == s + pages
                &&& final(pmm).free_pages() == left
                &&& final(pmm).spec_free_count() == old(pmm).spec_free_count() - pages
                &&& taken.len() == pages
                &&& old(pmm).updated(final(pmm), taken.to_set(), old(self).spec_page_state())
                &&& final(aspace).mappings() == mapped(
                    old(aspace).mappings(),
                    r->Ok_0 as int,
                    taken,
                    pages as int,
                )
            }),
    {
        proof {
            lemma_updated_same(old(pmm), self.spec_page_state());
        }
        proof {
            lemma_align_pages(self.spec_align_log2() as int);
        }
        if pages > pmm.free_count() {
            return Err(ErrNO::NoMem);
        }
        let start = match self.bitmap_search_aligned(pages) {
            None => {
                return Err(ErrNO::NoMem);
            },
            Some(start) => start,
        };
        let paddrs = match self.collect_backing(pages, pmm) {
            Err(e) => {
                proof {
                    lemma_updated_nothing(old(pmm), final(pmm), self.spec_page_state());
                    self.lemma_backed_same(old(pmm), final(pmm), final(aspace));
                }
                return Err(e);
            },
            Ok(paddrs) => paddrs,
        };
        let vstart = self.install(start, &paddrs, pmm, aspace, Ghost(*old(pmm)));
        Ok(vstart)
    }

    /// Allocates `pages` pages of the region between two guards and backs
    /// them with pages of `pmm`, which it maps in `aspace`; returns the
    /// address of the first. Where the alignment of the region is above
    /// that of a page and the allocation has at least a unit of it, the
    /// pages start at the first multiple of the alignment where they fit,
    /// and each unit is backed by an aligned run of physically contiguous
    /// pages; otherwise they start where they fit first, and pages from
    /// the head of the free list back them. The search begins at the
    /// recorded search start and, failing that, once more behind the pages
    /// of the bitmap itself. A refused allocation changes nothing but,
    /// where it was aligned and some of its aligned runs were to be had,
    /// the order of the free list: those runs stand at its tail.
    pub fn alloc_pages(&mut self, pages: usize, pmm: &mut PmmNode, aspace: &mut VmAspace) -> (r:
        Result<vaddr_t, ErrNO>)
        requires
            old(self).wf(),
            old(pmm).wf(),
            old(aspace).wf(),
            old(self).backed(old(pmm), old(aspace)),
        ensures
            final(self).wf(),
            final(pmm).wf(),
            final(aspace).wf(),
            final(self).backed(final(pmm), final(aspace)),
            final(self).spec_alloc_base() == old(self).spec_alloc_base(),
            final(self).spec_guard() == old(self).spec_guard(),
            final(self).spec_page_state() == old(self).spec_page_state(),
            final(self).spec_align_log2() == old(self).spec_align_log2(),
            final(self).spec_bitmap_pages() == old(self).spec_bitmap_pages(),
            final(self).bits().len() == old(self).bits().len(),
            final(aspace).spec_base() == old(aspace).spec_base(),
            final(aspace).spec_size() == old(aspace).spec_size(),
            r is Ok <==> old(self).can_alloc(old(pmm), pages),
            r == Err::<vaddr_t, ErrNO>(ErrNO::BadState) <==> old(self).spec_alloc_base() == 0,
            r == Err::<vaddr_t, ErrNO>(ErrNO::InvalidArgs) <==> old(self).spec_alloc_base() != 0
                && pages == 0,
            r == Err::<vaddr_t, ErrNO>(ErrNO::NoMem) <==> old(self).spec_alloc_base() != 0 && pages
                > 0 && !old(self).can_alloc(old(pmm), pages),
            r is Err ==> final(self).bits() == old(self).bits()
                && final(self).spec_next_search_start() == old(self).spec_next_search_start()
                && final(pmm).spec_free_count() == old(pmm).spec_free_count() && old(pmm).updated(
                final(pmm),
                Set::empty(),
                old(self).spec_page_state(),
            ) && final(aspace).mappings() == old(aspace).mappings(),
            r is Err ==> *final(self) == *old(self) && *final(aspace) == *old(aspace),
            r is Err && !old(self).uses_aligned(pages) ==> *final(pmm) == *old(pmm),
            r == Err::<vaddr_t, ErrNO>(ErrNO::NoMem) && old(self).uses_aligned(pages)
                ==> final(pmm).free_pages() == old(self).spec_refused_free(old(pmm), pages),
            r is Ok ==> ({
                let s = old(self).spec_alloc_start(pages)->Some_0;
                let g = old(self).spec_guard() as int;
                let (taken, left) = old(self).spec_backing(old(pmm), pages);
                &&& r->Ok_0 == old(self).page_va(s)
                &&& old(self).spec_bitmap_pages() <= s
                &&& s + pages + g <= old(self).bits().len()
                &&& old(self).uses_aligned(pages) ==> s % old(self).spec_align_pages() == 0
                &&& forall|k: int| s - g <= k < s + pages + g ==> !old(self).bits()[k]
                &&& final(self).bits() == old(self).bits_with(s, s + pages, true)
                &&& final(self).spec_next_search_start() == s + pages
                &&& final(pmm).free_pages() == left
                &&& old(pmm).updated(final(pmm), taken.to_set(), old(self).spec_page_state())
                &&& final(aspace).mappings() == mapped(
                    old(aspace).mappings(),
                    r->Ok_0 as int,
                    taken,
                    pages as int,
                )
            }),
            r is Ok ==> old(self).alloc_pages_ok(
                old(pmm),
                pages,
                final(self),
                final(pmm),
                r->Ok_0,
            ),
            old(self).spec_guarded() ==> final(self).spec_guarded(),
    {
        if self.alloc_base == 0 {
            proof {
                lemma_updated_same(old(pmm), self.spec_page_state());
            }
            return Err(ErrNO::BadState);
        }
        if pages == 0 {
            proof {
                lemma_updated_same(old(pmm), self.spec_page_state());
            }
            return Err(ErrNO::InvalidArgs);
        }
        let r = if self.align_log2 > PAGE_SHIFT && pages >= self.align_pages() {
            self.alloc_pages_aligned(pages, pmm, aspace)
        } else {
            self.alloc_pages_plain(pages, pmm, aspace)
        };
        proof {
            if r is Ok && old(self).spec_guarded() {
                old(self).lemma_alloc_guarded(
                    old(self).spec_alloc_start(pages)->Some_0,
                    pages as int,
                );
            }
        }
        r
    }

    /// A region that is backed stays so while no page descriptor of `pmm`
    /// changes.
    proof fn lemma_backed_same(&self, old_pmm: &PmmNode, pmm: &PmmNode, aspace: &VmAspace)
        requires
            self.backed(old_pmm, aspace),
            old_pmm.updated(pmm, Set::empty(), vm_page_state::ALLOC),
        ensures
            self.backed(pmm, aspace),
    {
        if self.spec_alloc_base() != 0 {
            assert forall|i: int| 0 <= i < self.bits().len() && self.bits()[i] implies pmm.manages(
                #[trigger] self.backing(aspace, i),
            ) && pmm.page_at(self.backing(aspace, i)).spec_state() == self.spec_page_state() by {
                assert(old_pmm.manages(self.backing(aspace, i)));
            }
        }
    }

    /// After an allocation the region is backed as the bitmap says.
    proof fn lemma_alloc_backed(
        &self,
        old: &VirtualAlloc,
        old_pmm: &PmmNode,
        old_aspace: &VmAspace,
        pmm: &PmmNode,
        aspace: &VmAspace,
        s: int,
        n: int,
    )
        requires
            old_pmm.wf(),
            pmm.wf(),
            old.spec_alloc_base() != 0,
            old.spec_page_state() != vm_page_state::FREE,
            old.spec_alloc_base() + old.bits().len() * PAGE_SIZE <= usize::MAX,
            old.backed(old_pmm, old_aspace),
            self.spec_alloc_base() == old.spec_alloc_base(),
            self.spec_page_state() == old.spec_page_state(),
            0 <= s,
            0 < n <= old_pmm.free_pages().len(),
            s + n <= old.bits().len(),
            forall|k: int| s <= k < s + n ==> !old.bits()[k],
            self.bits() == old.bits_with(s, s + n, true),
            aspace.spec_base() == old_aspace.spec_base(),
            aspace.spec_size() == old_aspace.spec_size(),
            old_pmm.updated(
                pmm,
                old_pmm.free_pages().subrange(0, n).to_set(),
                old.spec_page_state(),
            ),
            aspace.mappings() == mapped(
                old_aspace.mappings(),
                old.page_va(s) as int,
                old_pmm.free_pages().subrange(0, n),
                n,
            ),
        ensures
            self.backed(pmm, aspace),
    {
        let taken = old_pmm.free_pages().subrange(0, n);
        assert forall|k: int| 0 <= k < n implies old_pmm.manages(#[trigger] taken[k])
            && old_pmm.page_at(taken[k]).spec_state() == vm_page_state::FREE by {
            assert(old_pmm.manages(old_pmm.free_pages()[k]));
        }
        assert(taken.no_duplicates()) by {
            assert forall|i: int, j: int| 0 <= i < j < taken.len() implies taken[i] != taken[j] by {
                assert(old_pmm.free_pages()[i] != old_pmm.free_pages()[j]);
            }
        }
        self.lemma_taken_backed(old, old_pmm, old_aspace, pmm, aspace, s, n, taken);
    }

    /// After free pages were taken to back newly allocated pages of the
    /// region, the region is backed as the bitmap says.
    proof fn lemma_taken_backed(
        &self,
        old: &VirtualAlloc,
        old_pmm: &PmmNode,
        old_aspace: &VmAspace,
        pmm: &PmmNode,
        aspace: &VmAspace,
        s: int,
        n: int,
        taken: Seq<usize>,
    )
        requires
            old_pmm.wf(),
            pmm.wf(),
            old.spec_alloc_base() != 0,
            old.spec_page_state() != vm_page_state::FREE,
            old.spec_alloc_base() + old.bits().len() * PAGE_SIZE <= usize::MAX,
            old.backed(old_pmm, old_aspace),
            self.spec_alloc_base() == old.spec_alloc_base(),
            self.spec_page_state() == old.spec_page_state(),
            0 <= s,
            0 < n,
            taken.len() == n,
            taken.no_duplicates(),
            forall|k: int|
                0 <= k < n ==> old_pmm.manages(#[trigger] taken[k]) && old_pmm.page_at(
                    taken[k],
                ).spec_state() == vm_page_state::FREE,
            s + n <= old.bits().len(),
            forall|k: int| s <= k < s + n ==> !old.bits()[k],
            self.bits() == old.bits_with(s, s + n, true),
            aspace.spec_base() == old_aspace.spec_base(),
            aspace.spec_size() == old_aspace.spec_size(),
            old_pmm.updated(pmm, taken.to_set(), old.spec_page_state()),
            aspace.mappings() == mapped(old_aspace.mappings(), old.page_va(s) as int, taken, n),
        ensures
            self.backed(pmm, aspace),
    {
        let va = old.page_va(s) as int;
        let len = self.bits().len();
        assert forall|i: int| 0 <= i < len implies ({
            &&& in_run(va, n, self.page_va(i) as int) == (s <= i < s + n)
            &&& s <= i < s + n ==> (self.page_va(i) - va) / (PAGE_SIZE as int) == i - s
        }) by {
            if s <= i < s + n {
                lemma_in_run_at(va, n, i - s);
            }
        }
        assert forall|i: int| 0 <= i < len implies #[trigger] self.bits()[i]
            == aspace.mappings().contains_key(self.page_va(i)) by {
            assert(old.bits()[i] == old_aspace.mappings().contains_key(old.page_va(i)));
        }
        assert forall|i: int| 0 <= i < len && self.bits()[i] implies ({
            &&& (s <= i < s + n ==> self.backing(aspace, i) == taken[i - s])
            &&& (!(s <= i < s + n) ==> self.backing(aspace, i) == old.backing(old_aspace, i)
                && !taken.contains(self.backing(aspace, i)))
            &&& pmm.manages(#[trigger] self.backing(aspace, i))
            &&& pmm.page_at(self.backing(aspace, i)).spec_state() == self.spec_page_state()
        }) by {
            assert(old.bits()[i] == old_aspace.mappings().contains_key(old.page_va(i)));
            if s <= i < s + n {
                let p = taken[i - s];
                assert(old_pmm.manages(taken[i - s]));
                assert(taken.to_set().contains(p));
                crate::page::vm_page::lemma_with(
                    old_pmm.page_at(p),
                    old.spec_page_state(),
                    false,
                );
                crate::page::vm_page::lemma_with(
                    old_pmm.page_at(p).with_state(old.spec_page_state()),
                    old.spec_page_state(),
                    false,
                );
            } else {
                let p = old.backing(old_aspace, i);
                assert(old_pmm.manages(p));
                if taken.contains(p) {
                    let j = choose|j: int| 0 <= j < taken.len() && taken[j] == p;
                    assert(old_pmm.page_at(taken[j]).spec_state() == vm_page_state::FREE);
                }
                assert(!taken.to_set().contains(p));
            }
        }
        assert forall|i: int, j: int|
            0 <= i < j < len && self.bits()[i] && self.bits()[j] implies #[trigger] self.backing(
            aspace,
            i,
        ) != #[trigger] self.backing(aspace, j) by {
            let pi = self.backing(aspace, i);
            let pj = self.backing(aspace, j);
            assert(pmm.manages(pi) && pmm.manages(pj));
            if (s <= i < s + n) && (s <= j < s + n) {
                assert(taken[i - s] != taken[j - s]);
            } else if s <= i < s + n {
                assert(taken.contains(taken[i - s]));
            } else if s <= j < s + n {
                assert(taken.contains(taken[j - s]));
            } else {
                assert(old.backing(old_aspace, i) != old.backing(old_aspace, j));
            }
        }
    }

    /// The page of the region that starts at `vaddr`.
    pub open spec fn page_index(&self, vaddr: vaddr_t) -> int {
        (vaddr - self.spec_alloc_base()) / (PAGE_SIZE as int)
    }

    /// Why `free_pages` refuses its arguments, if it does: the allocator
    /// is not initialized; the run is empty, not page aligned, or not
    /// inside the region behind the bitmap's own pages; or a page of it is
    /// not allocated.
    pub open spec fn free_pages_error(&self, vaddr: vaddr_t, pages: usize) -> Option<ErrNO> {
        if self.spec_alloc_base() == 0 {
            Some(ErrNO::BadState)
        } else if pages == 0 || vaddr % PAGE_SIZE != 0 || vaddr < self.spec_alloc_base()
            || self.page_index(vaddr) < self.spec_bitmap_pages() || self.page_index(vaddr) + pages
            > self.bits().len() {
            Some(ErrNO::InvalidArgs)
        } else if exists|k: int|
            self.page_index(vaddr) <= k < self.page_index(vaddr) + pages && !self.bits()[k] {
            Some(ErrNO::BadState)
        } else {
            None
        }
    }

    /// Tells whether the `pages` pages at `vaddr` can be freed: the
    /// allocator is initialized, and they are whole pages of the region
    /// behind those of the bitmap, all of them allocated.
    pub fn can_free_pages(&self, vaddr: vaddr_t, pages: usize) -> (r: bool)
        requires
            self.wf(),
        ensures
            r == (self.free_pages_error(vaddr, pages) is None),
    {
        if self.alloc_base == 0 {
            return false;
        }
        if pages == 0 || !is_page_aligned(vaddr) || vaddr < self.alloc_base {
            return false;
        }
        let start = (vaddr - self.alloc_base) / PAGE_SIZE;
        let size = self.bitmap.size();
        proof {
            self.bitmap.lemma_storage_len();
        }
        if start < self.bitmap_pages() || start > size || pages > size - start {
            return false;
        }
        let mut unset: usize = 0;
        let all_set = self.bitmap.scan(start, start + pages, true, &mut unset);
        proof {
            if !all_set {
                assert(!self.bits()[unset as int]);
            }
        }
        all_set
    }

    /// Releases the `pages` pages at `vaddr`: marks them free in the
    /// bitmap, unmaps them and returns the physical pages behind them to
    /// `pmm`. The pages must be whole allocated pages of the region behind
    /// those of the bitmap: freeing a page that is free, such as one freed
    /// twice, is a fatal mistake of the caller, which `can_free_pages`
    /// tells beforehand.
    pub fn free_pages(&mut self, vaddr: vaddr_t, pages: usize, pmm: &mut PmmNode, aspace: &mut VmAspace)
        -> (r: Result<(), ErrNO>)
        requires
            old(self).wf(),
            old(pmm).wf(),
            old(aspace).wf(),
            old(self).backed(old(pmm), old(aspace)),
            old(self).free_pages_error(vaddr, pages) is None,
        ensures
            final(self).wf(),
            final(pmm).wf(),
            final(aspace).wf(),
            final(self).backed(final(pmm), final(aspace)),
            final(self).spec_alloc_base() == old(self).spec_alloc_base(),
            final(self).spec_guard() == old(self).spec_guard(),
            final(self).spec_page_state() == old(self).spec_page_state(),
            final(self).spec_align_log2() == old(self).spec_align_log2(),
            final(self).spec_bitmap_pages() == old(self).spec_bitmap_pages(),
            final(self).bits().len() == old(self).bits().len(),
            final(aspace).spec_base() == old(aspace).spec_base(),
            final(aspace).spec_size() == old(aspace).spec_size(),
            r is Ok,
            r is Ok ==> old(self).free_pages_ok(
                old(pmm),
                old(aspace),
                vaddr,
                pages,
                final(self),
                final(pmm),
            ),
            r is Ok ==> ({
                let s = old(self).page_index(vaddr);
                &&& final(self).bits() == old(self).bits_with(s, s + pages, false)
                &&& old(self).search_start_after_free(
                    s,
                    final(self).bits(),
                    final(self).spec_next_search_start() as int,
                )
                &&& final(aspace).mappings() == unmapped(
                    old(aspace).mappings(),
                    vaddr as int,
                    pages as int,
                )
                &&& final(pmm).free_pages() == old(pmm).free_pages() + old(self).backing_run(
                    old(aspace),
                    s,
                    pages as int,
                )
                &&& old(pmm).updated(
                    final(pmm),
                    old(self).backing_run(old(aspace), s, pages as int).to_set(),
                    vm_page_state::FREE,
                )
            }),
    {
        let start = (vaddr - self.alloc_base) / PAGE_SIZE;
        // Release the bitmap range prior to unmapping to ensure any
        // attempts to free an invalid range are caught before attempting
        // to unmap 'random' memory.
        match self.bitmap_free(start, pages) {
            Err(e) => {
                return Err(e);
            },
            Ok(_) => {},
        }
        proof {
            assert(vaddr == old(self).page_va(start as int));
            assert forall|i: int| start <= i < start + pages implies #[trigger] aspace.mappings().contains_key(
                self.page_va(i),
            ) by {
                assert(old(self).bits()[i]);
            }
            assert forall|i: int| start <= i < start + pages implies pmm.manages(
                #[trigger] self.backing(&*aspace, i),
            ) && pmm.page_at(self.backing(&*aspace, i)).spec_state() != vm_page_state::FREE by {
                assert(old(self).bits()[i]);
                assert(self.backing(&*aspace, i) == old(self).backing(old(aspace), i));
            }
            assert forall|i: int, j: int| start <= i < j < start + pages implies #[trigger] self.backing(
                &*aspace,
                i,
            ) != #[trigger] self.backing(&*aspace, j) by {
                assert(old(self).bits()[i] && old(self).bits()[j]);
                assert(old(self).backing(old(aspace), i) != old(self).backing(old(aspace), j));
            }
        }
        self.unmap_free_pages(start, pages, pmm, aspace);
        proof {
            assert(self.backing_run(old(aspace), start as int, pages as int) =~= old(self).backing_run(old(aspace), start as int, pages as int));
            self.lemma_free_backed(
                old(self),
                old(pmm),
                old(aspace),
                pmm,
                aspace,
                start as int,
                pages as int,
            );
        }
        Ok(())
    }

    /// After a release the region is backed as the bitmap says.
    proof fn lemma_free_backed(
        &self,
        old: &VirtualAlloc,
        old_pmm: &PmmNode,
        old_aspace: &VmAspace,
        pmm: &PmmNode,
        aspace: &VmAspace,
        s: int,
        n: int,
    )
        requires
            old_pmm.wf(),
            pmm.wf(),
            old.spec_alloc_base() != 0,
            old.spec_page_state() != vm_page_state::FREE,
            old.spec_alloc_base() + old.bits().len() * PAGE_SIZE <= usize::MAX,
            old.backed(old_pmm, old_aspace),
            self.spec_alloc_base() == old.spec_alloc_base(),
            self.spec_page_state() == old.spec_page_state(),
            0 <= s,
            0 < n,
            s + n <= old.bits().len(),
            forall|k: int| s <= k < s + n ==> old.bits()[k],
            self.bits() == old.bits_with(s, s + n, false),
            aspace.spec_base() == old_aspace.spec_base(),
            aspace.spec_size() == old_aspace.spec_size(),
            old_pmm.updated(pmm, old.backing_run(old_aspace, s, n).to_set(), vm_page_state::FREE),
            aspace.mappings() == unmapped(old_aspace.mappings(), old.page_va(s) as int, n),
        ensures
            self.backed(pmm, aspace),
    {
        let run = old.backing_run(old_aspace, s, n);
        let va = old.page_va(s) as int;
        let len = self.bits().len();
        assert forall|i: int| 0 <= i < len implies in_run(va, n, self.page_va(i) as int) == (s <= i
            < s + n) by {
            if s <= i < s + n {
                lemma_in_run_at(va, n, i - s);
            }
        }
        assert forall|i: int| 0 <= i < len implies #[trigger] self.bits()[i]
            == aspace.mappings().contains_key(self.page_va(i)) by {
            assert(old.bits()[i] == old_aspace.mappings().contains_key(old.page_va(i)));
        }
        assert forall|i: int| 0 <= i < len && self.bits()[i] implies ({
            &&& self.backing(aspace, i) == old.backing(old_aspace, i)
            &&& !run.contains(self.backing(aspace, i))
            &&& pmm.manages(#[trigger] self.backing(aspace, i))
            &&& pmm.page_at(self.backing(aspace, i)).spec_state() == self.spec_page_state()
        }) by {
            assert(old.bits()[i]);
            let p = old.backing(old_aspace, i);
            assert(old_pmm.manages(p));
            if run.contains(p) {
                let j = choose|j: int| 0 <= j < run.len() && run[j] == p;
                assert(old.bits()[s + j]);
                assert(run[j] == old.backing(old_aspace, s + j));
                if i < s + j {
                    assert(old.backing(old_aspace, i) != old.backing(old_aspace, s + j));
                } else {
                    assert(old.backing(old_aspace, s + j) != old.backing(old_aspace, i));
                }
            }
            assert(!run.to_set().contains(p));
        }
        assert forall|i: int, j: int|
            0 <= i < j < len && self.bits()[i] && self.bits()[j] implies #[trigger] self.backing(
            aspace,
            i,
        ) != #[trigger] self.backing(aspace, j) by {
            assert(pmm.manages(self.backing(aspace, i)) && pmm.manages(self.backing(aspace, j)));
            assert(old.backing(old_aspace, i) != old.backing(old_aspace, j));
        }
    }

    /// Why `init` refuses its arguments, if it does.
    pub open spec fn init_error(
        &self,
        base: vaddr_t,
        size: usize,
        alloc_guard: usize,
        align_log2: usize,
        pmm: &PmmNode,
        aspace: &VmAspace,
    ) -> Option<ErrNO> {
        let total = size as int / (PAGE_SIZE as int);
        if self.spec_alloc_base() != 0 {
            Some(ErrNO::BadState)
        } else if align_log2 < PAGE_SHIFT || !align_fits(align_log2 as int) {
            Some(ErrNO::InvalidArgs)
        } else if base == 0 || size == 0 || size as int % spec_align(align_log2 as int) != 0
            || base as int % spec_align(align_log2 as int) != 0 || base + size > usize::MAX {
            Some(ErrNO::InvalidArgs)
        } else if bitmap_pages_for(total) + alloc_guard * 2 >= total {
            Some(ErrNO::InvalidArgs)
        } else if !aspace.range_valid(base, total as usize) {
            Some(ErrNO::OutOfRange)
        } else if exists|x: usize|
            in_run(base as int, total, x as int) && #[trigger] aspace.mappings().contains_key(x) {
            Some(ErrNO::AlreadyExists)
        } else if pmm.spec_free_count() < bitmap_pages_for(total) {
            Some(ErrNO::NoMem)
        } else {
            None
        }
    }

    /// Takes charge of the region `[base, base + size)` of `aspace`, once.
    /// The region must be aligned to `2^align_log2`, which is at least the
    /// page size, lie inside `aspace` and be unmapped. The bitmap that
    /// tracks the region takes the first pages of the region itself, which
    /// are backed by pages of `pmm` and marked allocated; what is left must
    /// have room for at least one page between two guards of `alloc_guard`
    /// pages.
    pub fn init(
        &mut self,
        base: vaddr_t,
        size: usize,
        alloc_guard: usize,
        align_log2: usize,
        pmm: &mut PmmNode,
        aspace: &mut VmAspace,
    ) -> (r: Result<(), ErrNO>)
        requires
            old(self).wf(),
            old(pmm).wf(),
            old(aspace).wf(),
            old(self).backed(old(pmm), old(aspace)),
        ensures
            final(self).wf(),
            final(pmm).wf(),
            final(aspace).wf(),
            final(self).backed(final(pmm), final(aspace)),
            final(self).spec_page_state() == old(self).spec_page_state(),
            final(aspace).spec_base() == old(aspace).spec_base(),
            final(aspace).spec_size() == old(aspace).spec_size(),
            r == (match old(self).init_error(
                base,
                size,
                alloc_guard,
                align_log2,
                old(pmm),
                old(aspace),
            ) {
                Some(e) => Err::<(), ErrNO>(e),
                None => Ok::<(), ErrNO>(()),
            }),
            r is Err ==> *final(self) == *old(self) && final(pmm).free_pages() == old(pmm).free_pages() && old(pmm).updated(
                final(pmm),
                Set::empty(),
                old(self).spec_page_state(),
            ) && final(aspace).mappings() == old(aspace).mappings(),
            r is Ok ==> ({
                let total = size as int / (PAGE_SIZE as int);
                let own = bitmap_pages_for(total);
                let taken = old(pmm).free_pages().subrange(0, own);
                &&& final(self).spec_alloc_base() == base
                &&& final(self).spec_guard() == alloc_guard
                &&& final(self).spec_align_log2() == align_log2
                &&& final(self).spec_bitmap_pages() == own
                &&& final(self).spec_next_search_start() == own
                &&& final(self).spec_guarded()
                &&& final(self).bits() == Seq::new(total as nat, |i: int| i < own)
                &&& final(pmm).free_pages() == old(pmm).free_pages().subrange(
                    own,
                    old(pmm).free_pages().len() as int,
                )
                &&& old(pmm).updated(final(pmm), taken.to_set(), old(self).spec_page_state())
                &&& final(aspace).mappings() == mapped(
                    old(aspace).mappings(),
                    base as int,
                    taken,
                    own,
                )
            }),
    {
        proof {
            lemma_updated_same(old(pmm), self.spec_page_state());
        }
        if self.alloc_base != 0 {
            // This has already been initialized.
            return Err(ErrNO::BadState);
        }
        if align_log2 < PAGE_SHIFT {
            return Err(ErrNO::InvalidArgs);
        }
        let vaddr_align = match align_of(align_log2) {
            None => {
                return Err(ErrNO::InvalidArgs);
            },
            Some(vaddr_align) => vaddr_align,
        };
        if base == 0 || size == 0 || size % vaddr_align != 0 || base % vaddr_align != 0 || size
            > usize::MAX - base {
            return Err(ErrNO::InvalidArgs);
        }
        // Work out how many pages we need for the bitmap.
        let total_pages = size / PAGE_SIZE;
        let bits_per_page = PAGE_SIZE * BYTE_BITS;
        proof {
            lemma_roundup(total_pages as int, bits_per_page as int);
        }
        let bitmap_pages = roundup(total_pages, bits_per_page) / bits_per_page;
        // Validate that there will be anything left after allocating the
        // bitmap for an actual allocation. A single allocation needs
        // padding on both sides of it.
        if alloc_guard > total_pages || bitmap_pages + alloc_guard * 2 >= total_pages {
            return Err(ErrNO::InvalidArgs);
        }
        proof {
            lemma_align_pages(align_log2 as int);
            assert(base % PAGE_SIZE == 0 && size % PAGE_SIZE == 0) by {
                lemma_mod_multiple(base as int, vaddr_align as int, PAGE_SIZE as int);
                lemma_mod_multiple(size as int, vaddr_align as int, PAGE_SIZE as int);
            }
        }
        if !aspace.is_valid_range(base, total_pages) {
            return Err(ErrNO::OutOfRange);
        }
        if !region_unmapped(aspace, base, total_pages) {
            return Err(ErrNO::AlreadyExists);
        }
        if pmm.free_count() < bitmap_pages {
            return Err(ErrNO::NoMem);
        }
        self.align_log2 = align_log2;
        // Allocate and map the bitmap pages into the start of the range
        // we were given.
        assert(bitmap_pages > 0);
        assert forall|x: usize| in_run(base as int, bitmap_pages as int, x as int) implies !aspace.mappings().contains_key(
            x,
        ) by {
            assert(in_run(base as int, total_pages as int, x as int));
        }
        let mapped_pages = self.alloc_map_pages(base, bitmap_pages, pmm, aspace);
        assert(mapped_pages is Ok);
        self.bitmap.storage_init(base, bitmap_pages * PAGE_SIZE);
        // Initialize the bitmap, reserving its own pages.
        self.alloc_base = base;
        self.bitmap.init(total_pages);
        self.alloc_guard = alloc_guard;
        let ghost mid = *self;
        proof {
            mid.bitmap.lemma_storage_len();
            assert(mid.bits() =~= Seq::new(total_pages as nat, |i: int| false));
            assert(mid.backed(old(pmm), old(aspace))) by {
                assert forall|i: int| 0 <= i < mid.bits().len() implies #[trigger] mid.bits()[i]
                    == old(aspace).mappings().contains_key(mid.page_va(i)) by {
                    lemma_in_run_at(base as int, total_pages as int, i);
                }
            }
        }
        let set = self.bitmap.set(0, bitmap_pages);
        // Set our first search to happen after the bitmap.
        self.next_search_start = bitmap_pages;
        proof {
            self.bitmap.lemma_storage_len();
            assert(self.bits() =~= Seq::new(total_pages as nat, |i: int| i < bitmap_pages));
            assert(self.bits() =~= mid.bits_with(0, bitmap_pages as int, true));
            assert(mid.page_va(0) == base);
            self.lemma_alloc_backed(
                &mid,
                old(pmm),
                old(aspace),
                pmm,
                aspace,
                0,
                bitmap_pages as int,
            );
            let bits = self.bits();
            assert forall|i: int, j: int|
                0 <= i && i + 1 < j < bits.len() && #[trigger] bits[i] && #[trigger] bits[j]
                    && (forall|k: int| i < k < j ==> !bits[k]) implies j - i - 1
                >= self.spec_guard() by {
                assert(bits[i + 1]);
            }
        }
        Ok(())
    }

    /// In a region of which no page is allocated but those of the bitmap
    /// itself, an allocation is placed one guard behind them; it is
    /// placed if that leaves room for it and the guard behind it.
    pub proof fn lemma_fresh_start(&self, n: int)
        requires
            self.wf(),
            self.spec_alloc_base() != 0,
            n > 0,
            self.spec_next_search_start() == self.spec_bitmap_pages(),
            forall|i: int| self.spec_bitmap_pages() <= i < self.bits().len() ==> !self.bits()[i],
        ensures
            self.spec_bitmap_alloc(n) == (if self.spec_bitmap_pages() + n + 2 * self.spec_guard()
                <= self.bits().len() {
                Some(self.spec_bitmap_pages() + self.spec_guard())
            } else {
                None::<int>
            }),
    {
        let own = self.spec_bitmap_pages() as int;
        let len = n + 2 * self.spec_guard();
        let size = self.bitmap.spec_size() as int;
        self.bitmap.lemma_storage_len();
        if own + len <= size {
            assert(self.bitmap.is_run_start(own, own, size, len, false));
            assert forall|u: int| u < own implies !self.bitmap.is_run_start(
                u,
                own,
                size,
                len,
                false,
            ) by {}
            self.bitmap.lemma_first_run(own, own, size, len, false);
        } else {
            if self.has_free_run(own, len) {
                self.bitmap.lemma_first_run_is_least(own, size, len, false);
            }
        }
    }

    /// Where the first area of the kernel heap starts when this allocator
    /// provides it.
    pub open spec fn spec_first_area(&self) -> vaddr_t {
        self.page_va(self.spec_alloc_start((HEAP_GROW_SIZE / PAGE_SIZE) as usize)->Some_0)
    }

    /// What a successful `alloc_pages(pages)` that returned `addr` made of
    /// this allocator and of `pmm`: `after` and `pmm_after`.
    pub open spec fn alloc_pages_ok(
        &self,
        pmm: &PmmNode,
        pages: usize,
        after: &VirtualAlloc,
        pmm_after: &PmmNode,
        addr: vaddr_t,
    ) -> bool {
        let s = self.spec_alloc_start(pages)->Some_0;
        &&& self.spec_alloc_base() != 0
        &&& pages > 0
        &&& pages <= pmm.spec_free_count()
        &&& self.spec_alloc_start(pages) is Some
        &&& after.wf()
        &&& pmm_after.wf()
        &&& after.spec_alloc_base() == self.spec_alloc_base()
        &&& after.spec_bitmap_pages() == self.spec_bitmap_pages()
        &&& addr == self.page_va(s)
        &&& self.spec_bitmap_pages() <= s
        &&& s + pages <= self.bits().len()
        &&& forall|k: int| s <= k < s + pages ==> !self.bits()[k]
        &&& after.bits() == self.bits_with(s, s + pages, true)
        &&& pmm_after.spec_free_count() == pmm.spec_free_count() - pages
    }

    /// What a successful `free_pages(vaddr, pages)` made of this allocator
    /// and of `pmm`: `after` and `pmm_after`.
    pub open spec fn free_pages_ok(
        &self,
        pmm: &PmmNode,
        aspace: &VmAspace,
        vaddr: vaddr_t,
        pages: usize,
        after: &VirtualAlloc,
        pmm_after: &PmmNode,
    ) -> bool {
        let s = self.page_index(vaddr);
        &&& self.free_pages_error(vaddr, pages) is None
        &&& after.wf()
        &&& pmm_after.wf()
        &&& after.bits() == self.bits_with(s, s + pages, false)
        &&& pmm_after.free_pages() == pmm.free_pages() + self.backing_run(aspace, s, pages as int)
    }

    /// Allocating pages and freeing them again at the returned address
    /// restores the bitmap and the number of free pages: after a
    /// successful `alloc_pages(pages)` that returned `addr`,
    /// `free_pages(addr, pages)` is not refused, and whatever state it
    /// leaves has the bitmap and the free-page count from before the
    /// allocation.
    pub proof fn lemma_alloc_free_round_trip(
        &self,
        pmm: &PmmNode,
        pages: usize,
        addr: vaddr_t,
        allocated: &VirtualAlloc,
        pmm_allocated: &PmmNode,
        aspace_allocated: &VmAspace,
        freed: &VirtualAlloc,
        pmm_freed: &PmmNode,
    )
        requires
            self.wf(),
            pmm.wf(),
            self.alloc_pages_ok(pmm, pages, allocated, pmm_allocated, addr),
        ensures
            allocated.free_pages_error(addr, pages) is None,
            allocated.free_pages_ok(
                pmm_allocated,
                aspace_allocated,
                addr,
                pages,
                freed,
                pmm_freed,
            ) ==> freed.bits() == self.bits() && pmm_freed.spec_free_count()
                == pmm.spec_free_count(),
    {
        let s = self.spec_alloc_start(pages)->Some_0;
        assert(allocated.page_index(addr) == s);
        assert(allocated.bits().len() == self.bits().len());
        assert forall|k: int| s <= k < s + pages implies allocated.bits()[k] by {}
        if allocated.free_pages_ok(pmm_allocated, aspace_allocated, addr, pages, freed, pmm_freed) {
            assert(freed.bits() =~= self.bits());
        }
    }
}

/// Marks the pages of the boot heap as in use. The boot heap lies inside
/// the kernel image, which the boot reservation table covers, so that
/// nothing is left to do.
pub fn boot_heap_mark_pages_in_use(ctx: &mut BootContext)
    ensures
        *final(ctx) == *old(ctx),
{
}

/// Initializes the allocator of the virtual region of the kernel heap,
/// which takes the region recorded in `ctx`, with guards of one page and
/// the alignment of the architecture.
pub fn virtual_alloc_init(ctx: &mut BootContext) -> (r: Result<(), ErrNO>)
    requires
        old(ctx).memory_wf(),
    ensures
        final(ctx).memory_wf(),
        final(ctx).heap == old(ctx).heap,
        r == (match old(ctx).virtual_alloc.init_error(
            old(ctx).kernel_heap_base,
            old(ctx).kernel_heap_size,
            1,
            ARCH_HEAP_ALIGN_BITS,
            &old(ctx).pmm_node,
            &old(ctx).aspace,
        ) {
            Some(e) => Err::<(), ErrNO>(e),
            None => Ok::<(), ErrNO>(()),
        }),
        r is Ok ==> final(ctx).virtual_alloc.spec_alloc_base() == old(ctx).kernel_heap_base,
        r is Ok ==> ({
            let total = heap_region_pages(old(ctx));
            let own = bitmap_pages_for(total);
            &&& final(ctx).virtual_alloc.spec_guard() == 1
            &&& final(ctx).virtual_alloc.spec_align_log2() == ARCH_HEAP_ALIGN_BITS
            &&& final(ctx).virtual_alloc.spec_bitmap_pages() == own
            &&& final(ctx).virtual_alloc.spec_next_search_start() == own
            &&& final(ctx).virtual_alloc.bits() == Seq::new(total as nat, |i: int| i < own)
            &&& final(ctx).pmm_node.spec_free_count() == old(ctx).pmm_node.spec_free_count() - own
        }),
        r is Err ==> final(ctx).virtual_alloc == old(ctx).virtual_alloc,
{
    let base = ctx.kernel_heap_base;
    let size = ctx.kernel_heap_size;
    ctx.virtual_alloc.init(base, size, 1, ARCH_HEAP_ALIGN_BITS, &mut ctx.pmm_node, &mut ctx.aspace)
}

/// The pages of the region of the kernel heap that `ctx` records.
pub open spec fn heap_region_pages(ctx: &BootContext) -> int {
    ctx.kernel_heap_size as int / (PAGE_SIZE as int)
}

/// Why the allocator of the region of the kernel heap refuses the region
/// that `ctx` records, if it does.
pub open spec fn heap_region_error(ctx: &BootContext) -> Option<ErrNO> {
    ctx.virtual_alloc.init_error(
        ctx.kernel_heap_base,
        ctx.kernel_heap_size,
        1,
        ARCH_HEAP_ALIGN_BITS,
        &ctx.pmm_node,
        &ctx.aspace,
    )
}

/// The region of the kernel heap that `ctx` records has room behind its
/// bitmap for the first area of the heap between two guard pages, and
/// the page-frame allocator has the pages to back them both.
pub open spec fn heap_has_room(ctx: &BootContext) -> bool {
    let own = bitmap_pages_for(heap_region_pages(ctx));
    &&& own + HEAP_GROW_SIZE / PAGE_SIZE + 2 <= heap_region_pages(ctx)
    &&& own + HEAP_GROW_SIZE / PAGE_SIZE <= ctx.pmm_node.spec_free_count()
}

/// Where the first area of the kernel heap starts in the region that
/// `ctx` records: behind the pages of the bitmap and a guard page.
pub open spec fn heap_first_area(ctx: &BootContext) -> int {
    ctx.kernel_heap_base + (bitmap_pages_for(heap_region_pages(ctx)) + 1) * PAGE_SIZE
}

/// The heap `heap` is what it is after it got its first area at `area`:
/// three areas, the one between the sentinels free, which serves every
/// request that it has room for, from its start.
pub open spec fn heap_is_first(heap: HeapView, area: int) -> bool {
    &&& heap == first_view(area)
    &&& forall|request: int|
        1 <= request <= HEAP_MAX_ALLOC_SIZE && spec_rounded_size(request) + 3 * SIZE_OF_HEADER_T
            <= HEAP_GROW_SIZE ==> #[trigger] can_take(heap, request)
    &&& forall|request: int| #[trigger]
        can_take(heap, request) ==> taken_addr(heap, request) == area + 2 * SIZE_OF_HEADER_T
}

/// Makes the kernel heap ready for use: initializes the allocator of its
/// region, which takes the region recorded in `ctx`, and then the heap,
/// which takes its first area from there.
pub fn heap_init(ctx: &mut BootContext) -> (r: Result<(), ErrNO>)
    requires
        old(ctx).memory_wf(),
        old(ctx).heap@.blocks.len() == 0,
        old(ctx).heap@.cached is None,
        old(ctx).heap@.size == 0,
        old(ctx).heap@.remaining == 0,
    ensures
        final(ctx).memory_wf(),
        r is Ok <==> heap_region_error(old(ctx)) is None && heap_has_room(old(ctx)),
        heap_region_error(old(ctx)) is Some ==> r == Err::<(), ErrNO>(
            heap_region_error(old(ctx))->Some_0,
        ) && final(ctx).heap == old(ctx).heap,
        heap_region_error(old(ctx)) is Some ==> final(ctx).virtual_alloc == old(ctx).virtual_alloc,
        heap_region_error(old(ctx)) is None ==> final(ctx).heap_ready(),
        heap_region_error(old(ctx)) is None && r is Err ==> r == Err::<(), ErrNO>(ErrNO::NoMem),
        r is Ok ==> final(ctx).heap@.size == HEAP_GROW_SIZE && final(ctx).heap@.remaining
            == HEAP_USABLE_GROW_SIZE,
        r is Ok ==> heap_is_first(final(ctx).heap@, heap_first_area(old(ctx))),
{
    match virtual_alloc_init(ctx) {
        Err(e) => {
            return Err(e);
        },
        Ok(_) => {},
    }
    proof {
        ctx.virtual_alloc.lemma_fresh_start(64);
    }
    cmpct_init(ctx)
}

/// In the occupancy `bits` two runs of set bits have at least `guard`
/// unset bits between them.
pub open spec fn guarded(bits: Seq<bool>, guard: int) -> bool {
    forall|i: int, j: int|
        0 <= i && i + 1 < j < bits.len() && #[trigger] bits[i] && #[trigger] bits[j] && (forall|
            k: int,
        |
            i < k < j ==> !bits[k]) ==> j - i - 1 >= guard
}

/// The number of pages that a bitmap of `total` bits takes.
pub open spec fn bitmap_pages_for(total: int) -> int {
    spec_roundup(total, (PAGE_SIZE * BYTE_BITS) as int) / ((PAGE_SIZE * BYTE_BITS) as int)
}

/// Tells whether none of the `total` pages from `base` on is mapped.
fn region_unmapped(aspace: &VmAspace, base: vaddr_t, total: usize) -> (r: bool)
    requires
        aspace.wf(),
        base % PAGE_SIZE == 0,
        aspace.range_valid(base, total),
    ensures
        r == !(exists|x: usize|
            in_run(base as int, total as int, x as int) && #[trigger] aspace.mappings().contains_key(
                x,
            )),
{
    let mut i: usize = 0;
    while i < total
        invariant
            i <= total,
            aspace.wf(),
            base % PAGE_SIZE == 0,
            aspace.range_valid(base, total),
            forall|x: usize|
                in_run(base as int, i as int, x as int) ==> !aspace.mappings().contains_key(x),
        decreases total - i,
    {
        let v = base + i * PAGE_SIZE;
        proof {
            crate::align::lemma_rounddown(v as int, PAGE_SIZE as int);
            lemma_in_run_at(base as int, total as int, i as int);
        }
        if aspace.query(v).is_ok() {
            return false;
        }
        proof {
            assert forall|x: usize| in_run(base as int, i + 1, x as int) implies !aspace.mappings().contains_key(
                x,
            ) by {
                lemma_in_run_step(base as int, i as int, x as int);
            }
        }
        i += 1;
    }
    true
}

/// After the pages of `runs` were taken from the free pages of `pmm`,
/// which gave the node `mid`, and then `rest` pages from the head of the
/// free list of `mid`, which gave the node `last`: all those pages are
/// allocated in `last`, all of them were free in `pmm`, and none is named
/// twice.
proof fn lemma_backing(pmm: &PmmNode, mid: &PmmNode, last: &PmmNode, runs: Seq<usize>, rest: int)
    requires
        pmm.wf(),
        mid.wf(),
        pmm.updated(mid, runs.to_set(), vm_page_state::ALLOC),
        runs.no_duplicates(),
        forall|k: int|
            0 <= k < runs.len() ==> pmm.manages(#[trigger] runs[k]) && pmm.page_at(
                runs[k],
            ).spec_state() == vm_page_state::FREE,
        0 <= rest <= mid.free_pages().len(),
        mid.updated(last, mid.free_pages().subrange(0, rest).to_set(), vm_page_state::ALLOC),
    ensures
        ({
            let taken = runs + mid.free_pages().subrange(0, rest);
            &&& pmm.updated(last, taken.to_set(), vm_page_state::ALLOC)
            &&& taken.no_duplicates()
            &&& forall|i: int|
                0 <= i < taken.len() ==> pmm.manages(#[trigger] taken[i]) && pmm.page_at(
                    taken[i],
                ).spec_state() == vm_page_state::FREE && last.manages(taken[i]) && last.page_at(
                    taken[i],
                ).spec_state() == vm_page_state::ALLOC
        }),
{
    let head = mid.free_pages().subrange(0, rest);
    let taken = runs + head;
    assert forall|k: int| 0 <= k < head.len() implies pmm.manages(#[trigger] head[k])
        && pmm.page_at(head[k]).spec_state() == vm_page_state::FREE && !runs.contains(
        head[k],
    ) by {
        let p = head[k];
        assert(p == mid.free_pages()[k]);
        assert(mid.manages(mid.free_pages()[k]));
        if runs.contains(p) {
            let j = choose|j: int| 0 <= j < runs.len() && runs[j] == p;
            assert(pmm.manages(runs[j]));
            assert(runs.to_set().contains(p));
            crate::page::vm_page::lemma_with(pmm.page_at(p), vm_page_state::ALLOC, false);
            crate::page::vm_page::lemma_with(
                pmm.page_at(p).with_state(vm_page_state::ALLOC),
                vm_page_state::ALLOC,
                false,
            );
        }
        assert(!runs.to_set().contains(p));
    }
    assert(head.no_duplicates()) by {
        assert forall|i: int, j: int| 0 <= i < j < head.len() implies head[i] != head[j] by {
            assert(mid.free_pages()[i] != mid.free_pages()[j]);
        }
    }
    lemma_concat_distinct(runs, head);
    lemma_concat_set(runs, head);
    pmm.lemma_updated_trans(mid, last, runs.to_set(), head.to_set(), vm_page_state::ALLOC);
    assert forall|i: int| 0 <= i < taken.len() implies pmm.manages(#[trigger] taken[i])
        && pmm.page_at(taken[i]).spec_state() == vm_page_state::FREE && last.manages(taken[i])
        && last.page_at(taken[i]).spec_state() == vm_page_state::ALLOC by {
        if i < runs.len() {
            assert(taken[i] == runs[i]);
        } else {
            assert(taken[i] == head[i - runs.len()]);
        }
        let p = taken[i];
        assert(taken.to_set().contains(p));
        crate::page::vm_page::lemma_with(pmm.page_at(p), vm_page_state::ALLOC, false);
        crate::page::vm_page::lemma_with(
            pmm.page_at(p).with_state(vm_page_state::ALLOC),
            vm_page_state::ALLOC,
            false,
        );
    }
}

/// The flags of heap mappings include the one for reading.
proof fn lemma_flags_readable()
    ensures
        (ARCH_MMU_FLAG_CACHED | ARCH_MMU_FLAG_PERM_READ | ARCH_MMU_FLAG_PERM_WRITE)
            & ARCH_MMU_FLAG_PERM_READ != 0,
{
    assert((0usize | 8usize | 16usize) & 8usize != 0) by (bit_vector);
}

/// Page `j` of a run of `count` pages is one of its page starts.
pub proof fn lemma_in_run_at(vaddr: int, count: int, j: int)
    requires
        0 <= j < count,
    ensures
        in_run(vaddr, count, vaddr + j * PAGE_SIZE),
        (vaddr + j * PAGE_SIZE - vaddr) / (PAGE_SIZE as int) == j,
{
    assert((j * PAGE_SIZE) % (PAGE_SIZE as int) == 0) by (nonlinear_arith);
    assert((j * PAGE_SIZE) / (PAGE_SIZE as int) == j) by (nonlinear_arith);
    assert(j * PAGE_SIZE < count * PAGE_SIZE) by (nonlinear_arith)
        requires
            0 <= j < count,
    ;
}

/// A node that is unchanged but for its layout in memory is updated in
/// no page, whatever the state.
pub proof fn lemma_updated_nothing(a: &PmmNode, b: &PmmNode, state: vm_page_state_t)
    requires
        a.updated(b, Set::empty(), vm_page_state::ALLOC),
    ensures
        a.updated(b, Set::empty(), state),
{
}

/// A node is an update of itself in no page.
pub proof fn lemma_updated_same(a: &PmmNode, state: vm_page_state_t)
    ensures
        a.updated(a, Set::empty(), state),
{
}

} // verus!
