//! The physical page-frame allocator: arenas of page descriptors and the
//! list of free pages. A page is named by its physical address.
use vstd::prelude::*;
use crate::align::{
    align_of, is_page_aligned, lemma_align_pages, lemma_mod_multiple, lemma_rounddown,
    lemma_roundup, lemma_roundup_alt, rounddown, roundup_page_size, spec_align, spec_rounddown,
    spec_roundup, align_fits,
};
use crate::defines::{PAGE_SHIFT, PAGE_SIZE};
use crate::errors::ErrNO;
use crate::klib::list::{
    count_in_range, lemma_count_in_range, lemma_count_one, lemma_without_range, without_range, List,
};
use crate::page::{vm_page, vm_page_t};
use crate::platform::boot_reserve::{boot_reserve_range_search, hits_reserve, valid_spot, BootReserveRange};
use crate::types::paddr_t;
use crate::vm::page_queues::PageQueues;
use crate::vm_page_state;
use crate::vm_page_state::vm_page_state_t;

verus! {

/// No restrictions on which arena to allocate from.
pub const PMM_ALLOC_FLAG_ANY: u32 = 0;

/// Allocate only from arenas marked as low memory.
pub const PMM_ALLOC_FLAG_LO_MEM: u32 = 1;

/// The caller is able to wait and retry the allocation.
pub const PMM_ALLOC_FLAG_CAN_WAIT: u32 = 2;

/// The caller accepts a loaned page.
pub const PMM_ALLOC_FLAG_CAN_BORROW: u32 = 4;

/// The caller requires a loaned page.
pub const PMM_ALLOC_FLAG_MUST_BORROW: u32 = 8;

/// The number of arenas a platform is expected to configure at most.
pub const MAX_ARENAS: usize = 16;

/// Bytes one page descriptor takes in the array that an arena hosts.
pub const VM_PAGE_STRUCT_SIZE: usize = 48;

/// What a platform says about one range of physical memory.
pub struct ArenaInfo {
    pub name: String,
    pub flags: u32,
    pub base: usize,
    pub size: usize,
}

impl ArenaInfo {
    /// Describes the range `[base, base + size)` under `name`.
    pub fn new(name: &str, flags: u32, base: usize, size: usize) -> (r: ArenaInfo)
        ensures
            r.name@ == name@,
            r.flags == flags,
            r.base == base,
            r.size == size,
    {
        ArenaInfo { name: name.to_owned(), flags, base, size }
    }
}

/// The descriptors of an arena, and where in the arena they are hosted.
struct PageArray {
    /// Physical address of the chunk that hosts the array.
    start: paddr_t,
    /// Bytes of that chunk.
    len: usize,
    /// Bytes one descriptor takes.
    obj_size: usize,
    pages: Vec<vm_page>,
}

impl PageArray {
    /// An array of no descriptors, hosted nowhere yet.
    fn new() -> (r: Self)
        ensures
            r.pages@.len() == 0,
            r.start == 0,
            r.len == 0,
            r.obj_size == VM_PAGE_STRUCT_SIZE,
    {
        Self { start: 0, len: 0, obj_size: VM_PAGE_STRUCT_SIZE, pages: Vec::new() }
    }
}

/// A registered range of physical memory with one descriptor per page.
pub struct PmmArena {
    info: ArenaInfo,
    page_array: PageArray,
}

impl PmmArena {
    /// First address of the arena.
    pub closed spec fn spec_base(&self) -> usize {
        self.info.base
    }

    /// Bytes in the arena.
    pub closed spec fn spec_size(&self) -> usize {
        self.info.size
    }

    /// What the platform said about the arena.
    pub closed spec fn spec_info(&self) -> ArenaInfo {
        self.info
    }

    /// The descriptors of the arena, lowest page first.
    pub closed spec fn spec_pages(&self) -> Seq<vm_page> {
        self.page_array.pages@
    }

    /// Where the descriptor array is hosted, and how many bytes it takes.
    pub closed spec fn spec_array_chunk(&self) -> (paddr_t, usize) {
        (self.page_array.start, self.page_array.len)
    }

    /// The address `pa` lies in the arena.
    pub open spec fn contains(&self, pa: int) -> bool {
        self.spec_base() <= pa < self.spec_base() + self.spec_size()
    }

    /// The arena is page aligned, nonempty, ends inside the address space
    /// and has one descriptor per page, each knowing its own address.
    pub open spec fn wf(&self) -> bool {
        &&& self.spec_base() % PAGE_SIZE == 0
        &&& self.spec_size() % PAGE_SIZE == 0
        &&& self.spec_size() > 0
        &&& self.spec_base() + self.spec_size() <= usize::MAX
        &&& self.spec_pages().len() == self.spec_size() / PAGE_SIZE
        &&& forall|k: int|
            0 <= k < self.spec_pages().len() ==> (#[trigger] self.spec_pages()[k]).spec_paddr()
                == self.spec_base() + k * PAGE_SIZE
    }

    /// An arena for `info` that has no descriptors yet.
    pub fn new(info: ArenaInfo) -> (r: PmmArena)
        ensures
            r.spec_info() == info,
            r.spec_pages().len() == 0,
    {
        PmmArena { info, page_array: PageArray::new() }
    }

    /// Gives the arena its descriptors, one per page. The array of
    /// descriptors is hosted inside the arena, at the highest page-aligned
    /// spot that overlaps no reservation; the pages under it are wired.
    /// The address of every other
    /// page is put on `list`, lowest first.
    pub fn init(&mut self, res: &Vec<BootReserveRange>, list: &mut List<vm_page_t>) -> (r: Result<
        (),
        ErrNO,
    >)
        requires
            old(self).spec_base() % PAGE_SIZE == 0,
            old(self).spec_size() % PAGE_SIZE == 0,
            old(self).spec_size() > 0,
            old(self).spec_base() + old(self).spec_size() <= usize::MAX,
            old(self).spec_pages().len() == 0,
            old(list).spec_is_initialized(),
        ensures
            final(self).spec_info() == old(self).spec_info(),
            final(list).spec_is_initialized(),
            r == (match arena_init_error(
                res@,
                old(self).spec_base() as int,
                old(self).spec_size() as int,
            ) {
                Some(e) => Err::<(), ErrNO>(e),
                None => Ok::<(), ErrNO>(()),
            }),
            r is Err ==> final(self).spec_pages().len() == 0 && final(list)@ == old(list)@,
            r is Ok ==> ({
                let base = old(self).spec_base() as int;
                let size = old(self).spec_size() as int;
                let s = array_start_index(res@, base, size);
                let e = array_end_index(res@, base, size);
                &&& final(self).wf()
                &&& 0 <= s < e <= size / (PAGE_SIZE as int)
                &&& final(self).spec_array_chunk() == (
                    array_spot(res@, base, size) as usize,
                    array_bytes(size) as usize,
                )
                &&& forall|i: int|
                    0 <= i < size / (PAGE_SIZE as int) ==> #[trigger] final(self).spec_pages()[i]
                        == arena_page(base, s, e, i)
                &&& forall|i: int| s <= i < e ==> !page_reserved(res@, base, i)
                &&& final(list)@ == old(list)@ + free_addrs(base,
                    s,
                    e,
                    size / (PAGE_SIZE as int),
                )
            }),
    {
        let base = self.info.base;
        let size = self.info.size;
        // Allocate an array of descriptors to back this arena.
        let page_count = size / PAGE_SIZE;
        let page_array_size = array_size_of(size);
        // If the arena is too small to be useful, bail.
        if page_array_size >= size {
            return Err(ErrNO::LackBuf);
        }
        // Allocate a chunk to back the page array out of the arena itself,
        // near the top of memory.
        let found = find_array_spot(res, base, size, page_array_size);
        let spot = match found {
            None => {
                return Err(ErrNO::OutOfRange);
            },
            Some(spot) => spot,
        };
        // Compute the range of the array that backs the array itself.
        let array_start = (spot - base) / PAGE_SIZE;
        let array_end = array_start + page_array_size / PAGE_SIZE;
        proof {
            lemma_array_pages_unreserved(
                res@,
                base as int,
                spot as int,
                page_array_size as int,
                array_start as int,
                array_end as int,
            );
        }
        // Add all pages that are not wired to the list of free pages.
        let pages = build_pages(base, page_count, array_start, array_end, list);
        proof {
            lemma_arena_pages_paddr(base as int,
                array_start as int,
                array_end as int,
                pages@,
            );
        }
        self.page_array.start = spot;
        self.page_array.len = page_array_size;
        self.page_array.pages = pages;
        Ok(())
    }

    /// The name the platform gave the arena.
    pub fn name(&self) -> (r: &str)
        ensures
            r@ == self.spec_info().name@,
    {
        self.info.name.as_str()
    }

    /// First address of the arena.
    pub fn base(&self) -> (r: paddr_t)
        ensures
            r == self.spec_base(),
    {
        self.info.base
    }

    /// Bytes in the arena.
    pub fn size(&self) -> (r: usize)
        ensures
            r == self.spec_size(),
    {
        self.info.size
    }

    /// Tells whether `pa` lies in the arena.
    fn address_in_arena(&self, pa: paddr_t) -> (r: bool)
        requires
            self.spec_base() + self.spec_size() <= usize::MAX,
        ensures
            r == self.contains(pa as int),
    {
        pa >= self.info.base && pa - self.info.base < self.info.size
    }

    /// The descriptor of the page that holds `pa`, if the arena has it.
    fn find_specific(&self, pa: paddr_t) -> (r: Option<&vm_page>)
        requires
            self.wf(),
        ensures
            r is Some <==> self.contains(pa as int),
            r is Some ==> *r->Some_0 == self.spec_pages()[(pa - self.spec_base()) / (PAGE_SIZE as int)],
    {
        if !self.address_in_arena(pa) {
            return None;
        }
        let index = (pa - self.info.base) / PAGE_SIZE;
        proof {
            lemma_index_in_arena(self.info.base as int, self.info.size as int, pa as int);
        }
        Some(&self.page_array.pages[index])
    }
}

/// An address inside an arena falls on one of its pages.
pub proof fn lemma_index_in_arena(base: int, size: int, pa: int)
    requires
        0 <= base <= pa < base + size,
        size % (PAGE_SIZE as int) == 0,
    ensures
        0 <= (pa - base) / (PAGE_SIZE as int) < size / (PAGE_SIZE as int),
        pa % (PAGE_SIZE as int) == 0 && base % (PAGE_SIZE as int) == 0 ==> base + ((pa - base) / (
        PAGE_SIZE as int)) * PAGE_SIZE == pa,
{
}

/// Page `i` of an arena at `base` overlaps a range of the reservation
/// table.
pub open spec fn page_reserved(res: Seq<BootReserveRange>, base: int, i: int) -> bool {
    hits_reserve(res, base + i * PAGE_SIZE, PAGE_SIZE as int)
}

/// Page `i` of an arena is kept out of the free list: it hosts part of
/// the descriptor array, which takes the pages `[s, e)`.
pub open spec fn page_wired(base: int, s: int, e: int, i: int) -> bool {
    s <= i < e
}

/// The addresses of the first `n` pages of an arena that are not wired,
/// in ascending order.
pub open spec fn free_addrs(base: int, s: int, e: int, n: int) -> Seq<
    usize,
>
    decreases n,
{
    if n <= 0 {
        Seq::empty()
    } else if page_wired(base, s, e, n - 1) {
        free_addrs(base, s, e, n - 1)
    } else {
        free_addrs(base, s, e, n - 1).push((base + (n - 1) * PAGE_SIZE) as usize)
    }
}

/// Bytes the descriptor array of an arena of `size` bytes takes, in whole
/// pages.
pub open spec fn array_bytes(size: int) -> int {
    spec_roundup((size / (PAGE_SIZE as int)) * VM_PAGE_STRUCT_SIZE, PAGE_SIZE as int)
}

/// The descriptor array of the arena `[base, base + size)` can be hosted
/// at `p`: a page-aligned spot inside the arena that overlaps no
/// reservation.
pub open spec fn aligned_spot(res: Seq<BootReserveRange>, base: int, size: int, p: int) -> bool {
    p % (PAGE_SIZE as int) == 0 && valid_spot(res, base, size, array_bytes(size), p)
}

/// The arena has room for its own descriptor array.
#[verifier::opaque]
pub open spec fn has_array_spot(res: Seq<BootReserveRange>, base: int, size: int) -> bool {
    exists|p: int| aligned_spot(res, base, size, p)
}

/// Where the descriptor array of the arena is hosted: the highest spot
/// that can host it.
#[verifier::opaque]
pub open spec fn array_spot(res: Seq<BootReserveRange>, base: int, size: int) -> int {
    choose|p: int|
        aligned_spot(res, base, size, p) && forall|q: int|
            q > p ==> !aligned_spot(res, base, size, q)
}

/// The descriptor that registration gives page `i` of an arena: wired if
/// the page hosts the array, else free and on the free list.
pub open spec fn arena_page(base: int, s: int, e: int, i: int)
    -> vm_page {
    let fresh = vm_page::spec_new((base + i * PAGE_SIZE) as usize);
    if page_wired(base, s, e, i) {
        fresh.with_state(vm_page_state::WIRED)
    } else {
        fresh.with_link(true)
    }
}

/// The free addresses of an arena are exactly those of its pages that are
/// not wired, each once, in ascending order.
pub proof fn lemma_free_addrs(base: int, s: int, e: int, n: int)
    requires
        0 <= n,
        0 <= base,
        base + n * PAGE_SIZE <= usize::MAX,
    ensures
        free_addrs(base, s, e, n).len() <= n,
        forall|k: int|
            0 <= k < free_addrs(base, s, e, n).len() ==> base <= (#[trigger] free_addrs(base,
                s,
                e,
                n,
            )[k]) < base + n * PAGE_SIZE && free_addrs(base, s, e, n)[k] % PAGE_SIZE == base
                % (PAGE_SIZE as int) && !page_wired(base,
                s,
                e,
                (free_addrs(base, s, e, n)[k] - base) / (PAGE_SIZE as int),
            ),
        forall|i: int|
            0 <= i < n && !page_wired(base, s, e, i) ==> free_addrs(base, s, e, n).contains(
                (base + i * PAGE_SIZE) as usize,
            ),
        free_addrs(base, s, e, n).no_duplicates(),
    decreases n,
{
    if n > 0 {
        lemma_free_addrs(base, s, e, n - 1);
        let prev = free_addrs(base, s, e, n - 1);
        let cur = free_addrs(base, s, e, n);
        let last = (base + (n - 1) * PAGE_SIZE) as usize;
        assert((base + (n - 1) * PAGE_SIZE) % (PAGE_SIZE as int) == base % (PAGE_SIZE as int))
            by (nonlinear_arith)
            requires
                0 <= base,
                n >= 1,
        ;
        assert(((n - 1) * PAGE_SIZE) / (PAGE_SIZE as int) == n - 1) by (nonlinear_arith);
        assert forall|i: int| 0 <= i < n && !page_wired(base, s, e, i) implies cur.contains(
            (base + i * PAGE_SIZE) as usize,
        ) by {
            if i < n - 1 {
                let a = (base + i * PAGE_SIZE) as usize;
                assert(prev.contains(a));
                let j = choose|j: int| 0 <= j < prev.len() && prev[j] == a;
                assert(cur[j] == a);
            } else {
                assert(cur[cur.len() - 1] == last);
            }
        }
    }
}

/// The free pages of an arena of `n` pages are all but the pages
/// `[s, e)` that host the descriptor array.
pub proof fn lemma_free_addrs_len(base: int, s: int, e: int, n: int)
    requires
        0 <= s <= e,
        0 <= n,
    ensures
        e <= n ==> free_addrs(base, s, e, n).len() == n - (e - s),
        n <= s ==> free_addrs(base, s, e, n).len() == n,
        s <= n <= e ==> free_addrs(base, s, e, n).len() == s,
    decreases n,
{
    if n > 0 {
        lemma_free_addrs_len(base, s, e, n - 1);
    }
}

/// Why the arena `[base, base + size)` cannot get its descriptors, if
/// anything stands in the way: the array would fill the arena, or no spot
/// inside the arena can host it.
pub open spec fn arena_init_error(res: Seq<BootReserveRange>, base: int, size: int) -> Option<
    ErrNO,
> {
    if array_bytes(size) >= size {
        Some(ErrNO::LackBuf)
    } else if !has_array_spot(res, base, size) {
        Some(ErrNO::OutOfRange)
    } else {
        None
    }
}

/// First of the pages that host the descriptor array of the arena.
pub open spec fn array_start_index(res: Seq<BootReserveRange>, base: int, size: int) -> int {
    (array_spot(res, base, size) - base) / (PAGE_SIZE as int)
}

/// One past the last of the pages that host the descriptor array of the
/// arena.
pub open spec fn array_end_index(res: Seq<BootReserveRange>, base: int, size: int) -> int {
    array_start_index(res, base, size) + array_bytes(size) / (PAGE_SIZE as int)
}

/// Finds the highest page-aligned spot inside `[base, base + size)` that
/// can host `array_size` bytes without overlapping a reservation.
fn find_array_spot(res: &Vec<BootReserveRange>, base: paddr_t, size: usize, array_size: usize) -> (r:
    Option<paddr_t>)
    requires
        base % PAGE_SIZE == 0,
        size % PAGE_SIZE == 0,
        base + size <= usize::MAX,
        array_size == array_bytes(size as int),
        array_size < size,
    ensures
        r is Some <==> has_array_spot(res@, base as int, size as int),
        r is Some ==> r->Some_0 == array_spot(res@, base as int, size as int) && aligned_spot(
            res@,
            base as int,
            size as int,
            r->Some_0 as int,
        ),
{
    let mut limit = size;
    loop
        invariant
            base % PAGE_SIZE == 0,
            size % PAGE_SIZE == 0,
            base + size <= usize::MAX,
            array_size == array_bytes(size as int),
            array_size <= limit <= size,
            forall|q: int|
                aligned_spot(res@, base as int, size as int, q) ==> q + array_size <= base + limit,
        decreases limit,
    {
        let mut range = BootReserveRange { pa: 0, len: 0 };
        match boot_reserve_range_search(res, base, limit, array_size, &mut range) {
            Err(_) => {
                proof {
                    reveal(has_array_spot);
                    assert forall|q: int| !aligned_spot(res@, base as int, size as int, q) by {
                        if aligned_spot(res@, base as int, size as int, q) {
                            assert(valid_spot(
                                res@,
                                base as int,
                                limit as int,
                                array_size as int,
                                q,
                            ));
                        }
                    }
                }
                return None;
            },
            Ok(_) => {
                let pa = range.pa;
                if is_page_aligned(pa) {
                    proof {
                        reveal(has_array_spot);
                        reveal(array_spot);
                        assert(aligned_spot(res@, base as int, size as int, pa as int));
                        assert forall|q: int| q > pa implies !aligned_spot(
                            res@,
                            base as int,
                            size as int,
                            q,
                        ) by {
                            if aligned_spot(res@, base as int, size as int, q) {
                                assert(valid_spot(
                                    res@,
                                    base as int,
                                    limit as int,
                                    array_size as int,
                                    q,
                                ));
                            }
                        }
                        let c = array_spot(res@, base as int, size as int);
                        assert(c == pa);
                    }
                    return Some(pa);
                }
                let down = rounddown(pa, PAGE_SIZE);
                proof {
                    lemma_rounddown(pa as int, PAGE_SIZE as int);
                    assert forall|q: int|
                        aligned_spot(res@, base as int, size as int, q) implies q + array_size
                        <= down + array_size by {
                        assert(valid_spot(res@, base as int, limit as int, array_size as int, q));
                        assert(q <= pa);
                    }
                }
                limit = down + array_size - base;
            },
        }
    }
}

/// Bytes the descriptor array of an arena of `size` bytes takes.
fn array_size_of(size: usize) -> (r: usize)
    requires
        size % PAGE_SIZE == 0,
        size > 0,
    ensures
        r == array_bytes(size as int),
        r % PAGE_SIZE == 0,
        r >= PAGE_SIZE,
{
    let page_count = size / PAGE_SIZE;
    proof {
        lemma_roundup((page_count * VM_PAGE_STRUCT_SIZE) as int, PAGE_SIZE as int);
    }
    roundup_page_size(page_count * VM_PAGE_STRUCT_SIZE)
}

/// The pages under a spot that overlaps no reservation overlap none.
proof fn lemma_array_pages_unreserved(
    res: Seq<BootReserveRange>,
    base: int,
    spot: int,
    len: int,
    s: int,
    e: int,
)
    requires
        0 <= base <= spot,
        base % (PAGE_SIZE as int) == 0,
        spot % (PAGE_SIZE as int) == 0,
        len % (PAGE_SIZE as int) == 0,
        0 <= len,
        s == (spot - base) / (PAGE_SIZE as int),
        e == s + len / (PAGE_SIZE as int),
        !hits_reserve(res, spot, len),
    ensures
        forall|i: int| s <= i < e ==> !page_reserved(res, base, i),
        base + s * PAGE_SIZE == spot,
        base + e * PAGE_SIZE == spot + len,
        0 <= s <= e,
        len > 0 ==> s < e,
{
    assert forall|i: int| s <= i < e implies !page_reserved(res, base, i) by {
        if page_reserved(res, base, i) {
            let k = choose|k: int|
                0 <= k < res.len() && crate::klib::range::spec_intersects(
                    (#[trigger] res[k]).pa as int,
                    res[k].len as int,
                    base + i * PAGE_SIZE,
                    PAGE_SIZE as int,
                );
            assert(crate::klib::range::spec_intersects(
                res[k].pa as int,
                res[k].len as int,
                spot,
                len,
            ));
        }
    }
}

/// The descriptors that registration makes know their own addresses.
proof fn lemma_arena_pages_paddr(base: int,
    s: int,
    e: int,
    pages: Seq<vm_page>,
)
    requires
        0 <= base,
        base + pages.len() * PAGE_SIZE <= usize::MAX,
        forall|k: int| 0 <= k < pages.len() ==> #[trigger] pages[k] == arena_page(base, s, e, k),
    ensures
        forall|k: int|
            0 <= k < pages.len() ==> (#[trigger] pages[k]).spec_paddr() == base + k * PAGE_SIZE,
{
    assert forall|k: int| 0 <= k < pages.len() implies (#[trigger] pages[k]).spec_paddr() == base
        + k * PAGE_SIZE by {
        let fresh = vm_page::spec_new((base + k * PAGE_SIZE) as usize);
        vm_page::lemma_spec_new((base + k * PAGE_SIZE) as usize);
        vm_page::lemma_with(fresh, vm_page_state::WIRED, true);
        assert(pages[k] == arena_page(base, s, e, k));
    }
}

/// Makes the descriptors of the `page_count` pages from `base` on, and
/// puts the address of each page that is not wired on `list`.
fn build_pages(base: paddr_t,
    page_count: usize,
    array_start: usize,
    array_end: usize,
    list: &mut List<vm_page_t>,
) -> (pages: Vec<vm_page>)
    requires
        base + page_count * PAGE_SIZE <= usize::MAX,
        old(list).spec_is_initialized(),
    ensures
        final(list).spec_is_initialized(),
        pages@.len() == page_count,
        forall|k: int|
            0 <= k < page_count ==> #[trigger] pages@[k] == arena_page(base as int,
                array_start as int,
                array_end as int,
                k,
            ),
        final(list)@ == old(list)@ + free_addrs(base as int,
            array_start as int,
            array_end as int,
            page_count as int,
        ),
{
    let mut pages: Vec<vm_page> = Vec::new();
    let mut i: usize = 0;
    assert(list@ + free_addrs(base as int, array_start as int, array_end as int, 0) =~= list@);
    while i < page_count
        invariant
            i <= page_count,
            base + page_count * PAGE_SIZE <= usize::MAX,
            list.spec_is_initialized(),
            pages@.len() == i,
            forall|k: int|
                0 <= k < i ==> #[trigger] pages@[k] == arena_page(base as int,
                    array_start as int,
                    array_end as int,
                    k,
                ),
            list@ == old(list)@ + free_addrs(base as int,
                array_start as int,
                array_end as int,
                i as int,
            ),
        decreases page_count - i,
    {
        let paddr = base + i * PAGE_SIZE;
        let mut page = vm_page::new(paddr);
        if i >= array_start && i < array_end {
            page.set_state(vm_page_state::WIRED);
        } else {
            page.set_in_list(true);
            list.add_tail(paddr);
            assert(list@ =~= old(list)@ + free_addrs(base as int,
                array_start as int,
                array_end as int,
                i + 1,
            ));
        }
        pages.push(page);
        i += 1;
    }
    pages
}

/// The first page of a run of at least one page is a page of the run.
proof fn lemma_run_first(a: int, count: int)
    requires
        count > 0,
        0 <= a,
        a + count * PAGE_SIZE <= usize::MAX,
    ensures
        PmmNode::run_pages(a, count).contains(a as usize),
{
    assert(0int % (PAGE_SIZE as int) == 0);
}

/// A multiple of `align` above another is above it by at least `align`.
proof fn lemma_multiple_step(a: int, c: int, align: int)
    requires
        0 < align,
        0 <= c,
        a % align == 0,
        c % align == 0,
        a >= c,
        a != c,
    ensures
        a >= c + align,
{
    vstd::arithmetic::div_mod::lemma_fundamental_div_mod(a, align);
    vstd::arithmetic::div_mod::lemma_fundamental_div_mod(c, align);
    let qa = a / align;
    let qc = c / align;
    assert(qa > qc) by (nonlinear_arith)
        requires
            a == align * qa,
            c == align * qc,
            a > c,
            align > 0,
    ;
    assert(align * qa >= align * qc + align) by (nonlinear_arith)
        requires
            qa >= qc + 1,
            align > 0,
    ;
}

/// A multiple of `align` that is at least `base` is at least `base`
/// rounded up.
proof fn lemma_multiple_above(a: int, base: int, align: int)
    requires
        0 < align,
        0 <= base,
    ensures
        a % align == 0 && a >= base ==> a >= spec_roundup(base, align),
{
    if a % align == 0 && a >= base {
        lemma_roundup(base, align);
        let r = spec_roundup(base, align);
        if a < r {
            // `a` and `r` are multiples less than `align` apart.
            vstd::arithmetic::div_mod::lemma_fundamental_div_mod(a, align);
            vstd::arithmetic::div_mod::lemma_fundamental_div_mod(r, align);
            let qa = a / align;
            let qr = r / align;
            assert(false) by (nonlinear_arith)
                requires
                    a == align * qa,
                    r == align * qr,
                    a < r,
                    r < base + align,
                    base <= a,
                    align > 0,
            ;
        }
    }
}

/// A run of one page more holds the next page besides those it held.
proof fn lemma_run_pages_step(first: int, k: int, p: usize)
    requires
        0 <= k,
        0 <= first,
    ensures
        PmmNode::run_pages(first, k + 1).contains(p) <==> (PmmNode::run_pages(first, k).contains(p)
            || p == first + k * PAGE_SIZE),
{
    if p == first + k * PAGE_SIZE {
        assert((k * PAGE_SIZE) % (PAGE_SIZE as int) == 0) by (nonlinear_arith);
    }
    if PmmNode::run_pages(first, k + 1).contains(p) && p != first + k * PAGE_SIZE {
        assert(p < first + k * PAGE_SIZE) by {
            let d = p - first;
            assert(d % (PAGE_SIZE as int) == 0);
            assert(d < (k + 1) * PAGE_SIZE);
            assert(d != k * PAGE_SIZE);
        }
    }
}

/// No element lies in an empty range.
proof fn lemma_count_empty(s: Seq<usize>, lo: int)
    ensures
        count_in_range(s, lo, lo) == 0,
    decreases s.len(),
{
    if s.len() > 0 {
        lemma_count_empty(s.drop_last(), lo);
    }
}

/// The run of `count` pages at `a` starts at a multiple of `align`, and
/// `free` names every page of it.
#[verifier::opaque]
pub open spec fn has_chunk(free: Seq<usize>, a: int, count: int, align: int) -> bool {
    &&& 0 <= a
    &&& a % align == 0
    &&& a + count * PAGE_SIZE <= usize::MAX
    &&& forall|p: usize| PmmNode::run_pages(a, count).contains(p) ==> #[trigger] free.contains(p)
}

/// `free` names every page of some aligned run of `count` pages.
pub open spec fn some_chunk(free: Seq<usize>, count: int, align: int) -> bool {
    exists|a: int| has_chunk(free, a, count, align)
}

/// Where the lowest aligned run of `count` pages starts of which `free`
/// names every page.
pub closed spec fn first_chunk(free: Seq<usize>, count: int, align: int) -> int {
    choose|a: int|
        has_chunk(free, a, count, align) && forall|b: int|
            b < a ==> !has_chunk(free, b, count, align)
}

/// An aligned run with none below it is the lowest.
pub proof fn lemma_first_chunk(free: Seq<usize>, a: int, count: int, align: int)
    requires
        has_chunk(free, a, count, align),
        forall|b: int| b < a ==> !has_chunk(free, b, count, align),
    ensures
        some_chunk(free, count, align),
        first_chunk(free, count, align) == a,
{
    let c = first_chunk(free, count, align);
    assert(has_chunk(free, c, count, align) && forall|b: int|
        b < c ==> !has_chunk(free, b, count, align));
    if c < a {
        assert(!has_chunk(free, c, count, align));
    }
    if a < c {
        assert(!has_chunk(free, a, count, align));
    }
}

/// The addresses of the `count` pages from `a` on, lowest first.
pub open spec fn run_seq(a: int, count: int) -> Seq<usize> {
    Seq::new(count as nat, |k: int| (a + k * PAGE_SIZE) as usize)
}

/// `taken` before the pages of `more`, if there are any.
pub open spec fn joined(taken: Seq<usize>, more: Option<(Seq<usize>, Seq<usize>)>) -> Option<
    (Seq<usize>, Seq<usize>),
> {
    match more {
        None => None,
        Some((t, f)) => Some((taken + t, f)),
    }
}

/// Taking `n` aligned runs of `count` pages each out of the free list
/// `free`, one after the other and each time the lowest there is: the
/// pages taken, in the order in which they were taken, and the free list
/// that is left; or nothing, where one of the runs is not to be had.
pub open spec fn carved(free: Seq<usize>, n: nat, count: int, align: int) -> Option<
    (Seq<usize>, Seq<usize>),
>
    decreases n,
{
    if n == 0 {
        Some((Seq::<usize>::empty(), free))
    } else if !some_chunk(free, count, align) {
        None
    } else {
        let a = first_chunk(free, count, align);
        joined(
            run_seq(a, count),
            carved(without_range(free, a, a + count * PAGE_SIZE), (n - 1) as nat, count, align),
        )
    }
}

/// Whether the runs can be taken depends on which pages the free list
/// names, not on their order.
pub proof fn lemma_carved_same(a: Seq<usize>, b: Seq<usize>, n: nat, count: int, align: int)
    requires
        forall|p: usize| a.contains(p) == b.contains(p),
    ensures
        carved(a, n, count, align) is Some == carved(b, n, count, align) is Some,
    decreases n,
{
    reveal(has_chunk);
    if n > 0 {
        assert forall|x: int| has_chunk(a, x, count, align) == has_chunk(b, x, count, align) by {}
        if some_chunk(a, count, align) {
            let f = first_chunk(a, count, align);
            let x = choose|x: int| has_chunk(a, x, count, align);
            lemma_first_chunk_exists(a, x, count, align);
            assert(has_chunk(b, f, count, align));
            lemma_first_chunk(b, f, count, align);
            let hi = f + count * PAGE_SIZE;
            lemma_without_range(a, f, hi);
            lemma_without_range(b, f, hi);
            lemma_carved_same(
                without_range(a, f, hi),
                without_range(b, f, hi),
                (n - 1) as nat,
                count,
                align,
            );
        } else {
            assert(!some_chunk(b, count, align));
        }
    }
}

/// Where some aligned run is to be had, the lowest is one, and none
/// lies below it.
proof fn lemma_first_chunk_exists(free: Seq<usize>, x: int, count: int, align: int)
    requires
        has_chunk(free, x, count, align),
    ensures
        has_chunk(free, first_chunk(free, count, align), count, align),
        forall|b: int|
            b < first_chunk(free, count, align) ==> !has_chunk(free, b, count, align),
    decreases x,
{
    reveal(has_chunk);
    if exists|y: int| y < x && has_chunk(free, y, count, align) {
        let y = choose|y: int| y < x && has_chunk(free, y, count, align);
        lemma_first_chunk_exists(free, y, count, align);
    } else {
        lemma_first_chunk(free, x, count, align);
    }
}

/// Taking aligned runs of `count` pages each out of the free list
/// `free`, one after the other and each time the lowest there is, until
/// `n` are taken or none is to be had: the pages taken, in the order in
/// which they were taken, and the free list that is left.
pub open spec fn carved_part(free: Seq<usize>, n: nat, count: int, align: int) -> (
    Seq<usize>,
    Seq<usize>,
)
    decreases n,
{
    if n == 0 || !some_chunk(free, count, align) {
        (Seq::<usize>::empty(), free)
    } else {
        let a = first_chunk(free, count, align);
        let more = carved_part(
            without_range(free, a, a + count * PAGE_SIZE),
            (n - 1) as nat,
            count,
            align,
        );
        (run_seq(a, count) + more.0, more.1)
    }
}

/// The pages of a run, as a set and as a sequence.
pub proof fn lemma_run_seq(a: int, count: int)
    requires
        0 <= a,
        0 <= count,
        a + count * PAGE_SIZE <= usize::MAX,
    ensures
        run_seq(a, count).to_set() == PmmNode::run_pages(a, count),
        run_seq(a, count).no_duplicates(),
        run_seq(a, count).len() == count,
{
    let s = run_seq(a, count);
    assert forall|k: int| 0 <= k < count implies #[trigger] s[k] == a + k * PAGE_SIZE by {
        assert(k * PAGE_SIZE < count * PAGE_SIZE) by (nonlinear_arith)
            requires
                0 <= k < count,
        ;
    }
    assert forall|p: usize| s.to_set().contains(p) <==> PmmNode::run_pages(a, count).contains(
        p,
    ) by {
        if s.contains(p) {
            let k = choose|k: int| 0 <= k < s.len() && s[k] == p;
            assert(s[k] == a + k * PAGE_SIZE);
            assert(k * PAGE_SIZE < count * PAGE_SIZE) by (nonlinear_arith)
                requires
                    0 <= k < count,
            ;
            assert((k * PAGE_SIZE) % (PAGE_SIZE as int) == 0) by (nonlinear_arith);
        }
        if PmmNode::run_pages(a, count).contains(p) {
            let k = (p - a) / (PAGE_SIZE as int);
            assert(p == a + k * PAGE_SIZE);
            assert(0 <= k < count) by (nonlinear_arith)
                requires
                    0 <= k * PAGE_SIZE < count * PAGE_SIZE,
            ;
            assert(s[k] == p);
        }
    }
    assert(s.to_set() =~= PmmNode::run_pages(a, count));
}

/// Nothing before the pages of `more` leaves them as they are.
proof fn lemma_joined_empty(more: Option<(Seq<usize>, Seq<usize>)>)
    ensures
        joined(Seq::<usize>::empty(), more) == more,
{
    if more is Some {
        let (t, f) = more->Some_0;
        assert(Seq::<usize>::empty() + t =~= t);
    }
}

/// Pages put before pages put before others are all put before the
/// others.
proof fn lemma_joined_twice(a: Seq<usize>, b: Seq<usize>, more: Option<(Seq<usize>, Seq<usize>)>)
    ensures
        joined(a, joined(b, more)) == joined(a + b, more),
{
    if more is Some {
        let (t, f) = more->Some_0;
        assert(a + (b + t) =~= (a + b) + t);
    }
}

/// Two sequences one after the other hold what either holds.
pub proof fn lemma_concat_set(a: Seq<usize>, b: Seq<usize>)
    ensures
        (a + b).to_set() == a.to_set().union(b.to_set()),
{
    let c = a + b;
    assert forall|p: usize| c.to_set().contains(p) <==> a.to_set().union(b.to_set()).contains(
        p,
    ) by {
        if c.contains(p) {
            let k = choose|k: int| 0 <= k < c.len() && c[k] == p;
            if k < a.len() {
                assert(a[k] == p);
            } else {
                assert(b[k - a.len()] == p);
            }
        }
        if a.contains(p) {
            let k = choose|k: int| 0 <= k < a.len() && a[k] == p;
            assert(c[k] == p);
        }
        if b.contains(p) {
            let k = choose|k: int| 0 <= k < b.len() && b[k] == p;
            assert(c[a.len() + k] == p);
        }
    }
    assert(c.to_set() =~= a.to_set().union(b.to_set()));
}

/// Two sequences without repetition that share no element hold none
/// twice when one follows the other.
pub proof fn lemma_concat_distinct(a: Seq<usize>, b: Seq<usize>)
    requires
        a.no_duplicates(),
        b.no_duplicates(),
        forall|k: int| 0 <= k < b.len() ==> !a.contains(#[trigger] b[k]),
    ensures
        (a + b).no_duplicates(),
{
    let c = a + b;
    assert forall|i: int, j: int| 0 <= i < j < c.len() implies c[i] != c[j] by {
        if j < a.len() {
            assert(a[i] != a[j]);
        } else if i >= a.len() {
            assert(b[i - a.len()] != b[j - a.len()]);
        } else {
            assert(!a.contains(b[j - a.len()]));
            assert(a[i] == c[i]);
        }
    }
}

/// A longer run holds the pages of a shorter one.
proof fn lemma_run_pages_mono(first: int, k: int, count: int, p: usize)
    requires
        0 <= k <= count,
        PmmNode::run_pages(first, k).contains(p),
    ensures
        PmmNode::run_pages(first, count).contains(p),
{
    assert(k * PAGE_SIZE <= count * PAGE_SIZE) by (nonlinear_arith)
        requires
            0 <= k <= count,
    ;
}

/// Nothing leaves a sequence without an empty range.
proof fn lemma_without_all_kept(s: Seq<usize>, lo: int)
    ensures
        without_range(s, lo, lo) == s,
    decreases s.len(),
{
    if s.len() > 0 {
        lemma_without_all_kept(s.drop_last(), lo);
        assert(s.drop_last().push(s.last()) =~= s);
    }
}

/// The free pages and how many they are.
struct FreePageList {
    count: usize,
    list: List<vm_page_t>,
}

impl FreePageList {
    fn new() -> (r: Self)
        ensures
            r.count == 0,
            r.list@.len() == 0,
            !r.list.spec_is_initialized(),
    {
        Self { count: 0, list: List::<vm_page_t>::new() }
    }

    fn init(&mut self)
        ensures
            final(self).count == old(self).count,
            final(self).list@.len() == 0,
            final(self).list.spec_is_initialized(),
    {
        self.list.init();
    }
}

/// The collection of arenas of one memory node, and its free pages.
pub struct PmmNode {
    arenas: Vec<PmmArena>,
    free_list: FreePageList,
    page_queues: PageQueues,
}

impl PmmNode {
    /// The arenas, in ascending order of base address.
    pub closed spec fn spec_arenas(&self) -> Seq<PmmArena> {
        self.arenas@
    }

    /// The addresses of the free pages, in the order they will be handed
    /// out.
    pub closed spec fn free_pages(&self) -> Seq<usize> {
        self.free_list.list@
    }

    /// The recorded number of free pages.
    pub closed spec fn spec_free_count(&self) -> usize {
        self.free_list.count
    }

    /// Whether `init` was called on the node.
    pub closed spec fn spec_is_initialized(&self) -> bool {
        self.free_list.list.spec_is_initialized()
    }

    /// The page at `pa` has a descriptor: `pa` is page aligned and lies in
    /// an arena.
    pub open spec fn manages(&self, pa: usize) -> bool {
        &&& pa % PAGE_SIZE == 0
        &&& exists|a: int|
            0 <= a < self.spec_arenas().len() && (#[trigger] self.spec_arenas()[a]).contains(
                pa as int,
            )
    }

    /// The position of the arena that holds `pa`.
    pub open spec fn arena_of(&self, pa: usize) -> int {
        choose|a: int|
            0 <= a < self.spec_arenas().len() && (#[trigger] self.spec_arenas()[a]).contains(
                pa as int,
            )
    }

    /// The descriptor of the page that holds `pa`.
    pub open spec fn page_at(&self, pa: usize) -> vm_page {
        let arena = self.spec_arenas()[self.arena_of(pa)];
        arena.spec_pages()[(pa - arena.spec_base()) / (PAGE_SIZE as int)]
    }

    /// Every arena is well formed, and the arenas are disjoint and sorted
    /// by base address.
    pub open spec fn ranges_wf(&self) -> bool {
        &&& forall|a: int|
            0 <= a < self.spec_arenas().len() ==> (#[trigger] self.spec_arenas()[a]).wf()
        &&& forall|a: int, b: int|
            0 <= a < b < self.spec_arenas().len() ==> (#[trigger] self.spec_arenas()[a]).spec_base()
                + self.spec_arenas()[a].spec_size() <= (
            #[trigger] self.spec_arenas()[b]).spec_base()
    }

    /// The state of every page agrees with its membership of the free
    /// list: the list names each free page exactly once and no other page,
    /// and the recorded count is the length of the list.
    pub open spec fn wf(&self) -> bool {
        &&& self.ranges_wf()
        &&& self.spec_is_initialized()
        &&& self.spec_free_count() == self.free_pages().len()
        &&& self.free_pages().no_duplicates()
        &&& forall|i: int|
            0 <= i < self.free_pages().len() ==> self.manages(#[trigger] self.free_pages()[i])
                && self.page_at(self.free_pages()[i]).spec_state() == vm_page_state::FREE
        &&& forall|pa: usize|
            self.manages(pa) && (#[trigger] self.page_at(pa)).spec_state() == vm_page_state::FREE
                ==> self.free_pages().contains(pa)
        &&& forall|pa: usize|
            self.manages(pa) ==> (#[trigger] self.page_at(pa)).spec_in_list() == (self.page_at(
                pa,
            ).spec_state() == vm_page_state::FREE) && !self.page_at(pa).spec_is_loaned()
    }

    /// `other` has the arenas of this node, at the same places and of the
    /// same sizes, so that both manage the same pages.
    pub open spec fn same_arenas(&self, other: &PmmNode) -> bool {
        &&& other.spec_arenas().len() == self.spec_arenas().len()
        &&& forall|a: int|
            0 <= a < self.spec_arenas().len() ==> (#[trigger] other.spec_arenas()[a]).spec_base()
                == self.spec_arenas()[a].spec_base() && other.spec_arenas()[a].spec_size()
                == self.spec_arenas()[a].spec_size()
        &&& forall|p: usize| other.manages(p) == self.manages(p)
    }

    /// `other` differs from this node at most in the descriptors of the
    /// pages of `changed`, each of which has the state `state` there and
    /// is linked exactly when that state is the free one.
    pub open spec fn updated(&self, other: &PmmNode, changed: Set<usize>, state: vm_page_state_t)
        -> bool {
        &&& self.same_arenas(other)
        &&& forall|p: usize|
            self.manages(p) ==> #[trigger] other.page_at(p) == (if changed.contains(p) {
                self.page_at(p).with_state(state).with_link(state == vm_page_state::FREE)
            } else {
                self.page_at(p)
            })
    }

    /// In a node with disjoint arenas the arena that holds an address is
    /// the only one that does.
    pub proof fn lemma_arena_unique(&self, a: int, pa: usize)
        requires
            self.ranges_wf(),
            0 <= a < self.spec_arenas().len(),
            self.spec_arenas()[a].contains(pa as int),
        ensures
            self.arena_of(pa) == a,
            self.manages(pa) == (pa % PAGE_SIZE == 0),
    {
        let c = self.arena_of(pa);
        assert(0 <= c < self.spec_arenas().len() && self.spec_arenas()[c].contains(pa as int));
        if c < a {
            assert(self.spec_arenas()[c].spec_base() + self.spec_arenas()[c].spec_size()
                <= self.spec_arenas()[a].spec_base());
        }
        if a < c {
            assert(self.spec_arenas()[a].spec_base() + self.spec_arenas()[a].spec_size()
                <= self.spec_arenas()[c].spec_base());
        }
    }

    /// A node without arenas and without free pages, not yet initialized.
    pub fn new() -> (r: Self)
        ensures
            r.spec_arenas().len() == 0,
            r.free_pages().len() == 0,
            r.spec_free_count() == 0,
            !r.spec_is_initialized(),
            !r.spec_page_queues().wf(),
    {
        Self {
            arenas: Vec::new(),
            free_list: FreePageList::new(),
            page_queues: PageQueues::new(),
        }
    }

    /// Makes the node ready for use. It must hold no arena yet.
    pub fn init(&mut self)
        requires
            old(self).spec_arenas().len() == 0,
            old(self).spec_free_count() == 0,
        ensures
            final(self).wf(),
            final(self).spec_arenas().len() == 0,
            final(self).free_pages().len() == 0,
            final(self).spec_page_queues().wf(),
    {
        self.free_list.init();
        self.page_queues.init();
    }

    /// The page queues of the node.
    pub closed spec fn spec_page_queues(&self) -> PageQueues {
        self.page_queues
    }

    /// The page queues of the node.
    pub fn page_queues(&self) -> (r: &PageQueues)
        ensures
            *r == self.spec_page_queues(),
    {
        &self.page_queues
    }

    /// Puts the pages of `list`, of which there are `count`, behind the
    /// tail of the free list. The node is sound afterwards if the pages
    /// are managed, free and linked, and none of them was on the free
    /// list.
    pub fn add_free_pages(&mut self, list: &mut List<vm_page_t>, count: usize)
        requires
            old(self).spec_is_initialized(),
            old(self).spec_free_count() == old(self).free_pages().len(),
            count == old(list)@.len(),
        ensures
            final(self).spec_is_initialized(),
            final(self).free_pages() == old(self).free_pages() + old(list)@,
            final(self).spec_free_count() == old(self).spec_free_count() + count,
            final(self).spec_arenas() == old(self).spec_arenas(),
            final(self).spec_page_queues() == old(self).spec_page_queues(),
            final(list)@ == Seq::<usize>::empty(),
    {
        self.free_list.list.splice(list);
        proof {
            self.free_list.list.lemma_len_fits();
        }
        self.free_list.count = self.free_list.count + count;
    }

    /// The arenas, in ascending order of base address.
    pub fn get_arenas(&self) -> (r: &Vec<PmmArena>)
        ensures
            r@ == self.spec_arenas(),
    {
        &self.arenas
    }

    /// The number of free pages.
    pub fn free_count(&self) -> (r: usize)
        ensures
            r == self.spec_free_count(),
    {
        self.free_list.count
    }

    /// The position of the arena that holds `pa`, if there is one.
    fn find_arena(&self, pa: paddr_t) -> (r: Option<usize>)
        requires
            self.ranges_wf(),
        ensures
            r is Some ==> r->Some_0 < self.spec_arenas().len() && self.spec_arenas()[r->Some_0 as int].contains(
                pa as int,
            ) && self.arena_of(pa) == r->Some_0,
            r is None ==> forall|a: int|
                0 <= a < self.spec_arenas().len() ==> !(#[trigger] self.spec_arenas()[a]).contains(
                    pa as int,
                ),
    {
        let mut i: usize = 0;
        while i < self.arenas.len()
            invariant
                self.ranges_wf(),
                i <= self.arenas@.len(),
                forall|a: int| 0 <= a < i ==> !(#[trigger] self.arenas@[a]).contains(pa as int),
            decreases self.arenas@.len() - i,
        {
            if self.arenas[i].address_in_arena(pa) {
                proof {
                    self.lemma_arena_unique(i as int, pa);
                }
                return Some(i);
            }
            i += 1;
        }
        None
    }

    /// The descriptor of the page that holds `pa`, if the node has one.
    pub fn paddr_to_page(&self, pa: paddr_t) -> (r: Option<&vm_page>)
        requires
            self.ranges_wf(),
        ensures
            r is Some <==> exists|a: int|
                0 <= a < self.spec_arenas().len() && (#[trigger] self.spec_arenas()[a]).contains(
                    pa as int,
                ),
            r is Some ==> *r->Some_0 == self.page_at(pa),
    {
        match self.find_arena(pa) {
            None => None,
            Some(a) => self.arenas[a].find_specific(pa),
        }
    }

    /// Replaces state and link of the descriptor of the managed page `pa`.
    fn update_page(&mut self, pa: paddr_t, state: vm_page_state_t, linked: bool)
        requires
            old(self).ranges_wf(),
            old(self).manages(pa),
        ensures
            final(self).ranges_wf(),
            final(self).free_list == old(self).free_list,
            final(self).page_queues == old(self).page_queues,
            final(self).spec_arenas().len() == old(self).spec_arenas().len(),
            forall|a: int|
                0 <= a < old(self).spec_arenas().len() ==> (
                #[trigger] final(self).spec_arenas()[a]).spec_base() == old(self).spec_arenas()[a].spec_base() && final(self).spec_arenas()[a].spec_size() == old(self).spec_arenas()[a].spec_size(),
            forall|p: usize| final(self).manages(p) == old(self).manages(p),
            forall|p: usize|
                old(self).manages(p) ==> #[trigger] final(self).page_at(p) == (if p == pa {
                    old(self).page_at(p).with_state(state).with_link(linked)
                } else {
                    old(self).page_at(p)
                }),
    {
        let a = self.find_arena(pa).unwrap();
        let base = self.arenas[a].info.base;
        let idx = (pa - base) / PAGE_SIZE;
        proof {
            lemma_index_in_arena(base as int, self.arenas@[a as int].info.size as int, pa as int);
            vm_page::lemma_with(self.arenas@[a as int].page_array.pages@[idx as int], state, linked);
            vm_page::lemma_with(
                self.arenas@[a as int].page_array.pages@[idx as int].with_state(state),
                state,
                linked,
            );
        }
        self.arenas[a].page_array.pages[idx].set_state(state);
        self.arenas[a].page_array.pages[idx].set_in_list(linked);
        proof {
            assert forall|b: int| 0 <= b < self.spec_arenas().len() implies (
            #[trigger] self.spec_arenas()[b]).spec_base() == old(self).spec_arenas()[b].spec_base()
                && self.spec_arenas()[b].spec_size() == old(self).spec_arenas()[b].spec_size()
                && self.spec_arenas()[b].wf() by {
                assert(old(self).spec_arenas()[b].wf());
            }
            assert forall|p: usize| self.manages(p) == old(self).manages(p) by {
                if old(self).manages(p) {
                    let b = old(self).arena_of(p);
                    assert(self.spec_arenas()[b].contains(p as int));
                }
                if self.manages(p) {
                    let b = self.arena_of(p);
                    assert(old(self).spec_arenas()[b].contains(p as int));
                }
            }
            assert forall|p: usize| old(self).manages(p) implies #[trigger] self.page_at(p) == (if p
                == pa {
                old(self).page_at(p).with_state(state).with_link(linked)
            } else {
                old(self).page_at(p)
            }) by {
                let b = old(self).arena_of(p);
                assert(self.spec_arenas()[b].contains(p as int));
                self.lemma_arena_unique(b, p);
                let ob = old(self).spec_arenas()[b];
                lemma_index_in_arena(ob.spec_base() as int, ob.spec_size() as int, p as int);
                assert(ob.wf());
            }
        }
    }

    /// Takes the page at the head of the free list, if there is one, and
    /// moves it from the free state to the allocated one.
    pub fn alloc_page(&mut self, flags: u32) -> (r: Option<paddr_t>)
        requires
            old(self).wf(),
        ensures
            final(self).wf(),
            old(self).free_pages().len() == 0 ==> r is None && old(self).updated(
                final(self),
                Set::empty(),
                vm_page_state::ALLOC,
            ) && final(self).free_pages() == old(self).free_pages(),
            old(self).free_pages().len() > 0 ==> r == Some(old(self).free_pages()[0]) && old(self).updated(final(self), set![old(self).free_pages()[0]], vm_page_state::ALLOC) && final(self).free_pages() == old(self).free_pages().subrange(
                1,
                old(self).free_pages().len() as int,
            ),
    {
        let page = self.free_list.list.pop_head();
        if page.is_some() {
            self.free_list.count -= 1;
        }
        let ghost mid = *self;
        assert(mid.spec_arenas() == old(self).spec_arenas());
        assert(forall|p: usize| mid.manages(p) == old(self).manages(p));
        assert(forall|p: usize| mid.page_at(p) == old(self).page_at(p));
        match page {
            None => None,
            Some(pa) => {
                assert(old(self).manages(old(self).free_pages()[0]));
                self.update_page(pa, vm_page_state::ALLOC, false);
                proof {
                    let of = old(self).free_pages();
                    let nf = self.free_pages();
                    assert(nf =~= of.subrange(1, of.len() as int));
                    assert forall|p: usize| self.manages(p) implies #[trigger] self.page_at(p) == (
                    if p == pa {
                        old(self).page_at(p).with_state(vm_page_state::ALLOC).with_link(false)
                    } else {
                        old(self).page_at(p)
                    }) by {
                        assert(mid.manages(p));
                        assert(mid.page_at(p) == old(self).page_at(p));
                    }
                    vm_page::lemma_with(old(self).page_at(pa), vm_page_state::ALLOC, false);
                    vm_page::lemma_with(
                        old(self).page_at(pa).with_state(vm_page_state::ALLOC),
                        vm_page_state::ALLOC,
                        false,
                    );
                    assert forall|i: int| 0 <= i < nf.len() implies self.manages(
                        #[trigger] nf[i],
                    ) && self.page_at(nf[i]).spec_state() == vm_page_state::FREE by {
                        assert(nf[i] == of[i + 1]);
                        assert(of[i + 1] != of[0]);
                        assert(old(self).manages(of[i + 1]));
                    }
                    assert forall|p: usize|
                        self.manages(p) && (#[trigger] self.page_at(p)).spec_state()
                            == vm_page_state::FREE implies nf.contains(p) by {
                        assert(p != pa);
                        assert(of.contains(p));
                        let j = choose|j: int| 0 <= j < of.len() && of[j] == p;
                        assert(nf[j - 1] == p);
                    }
                    assert(set![pa].contains(pa));
                    assert(forall|p: usize| p != pa ==> !set![pa].contains(p));
                }
                Some(pa)
            },
        }
    }

    /// Two successive updates to the same state amount to one update of
    /// the pages of both.
    pub proof fn lemma_updated_trans(
        &self,
        b: &PmmNode,
        c: &PmmNode,
        s1: Set<usize>,
        s2: Set<usize>,
        state: vm_page_state_t,
    )
        requires
            self.updated(b, s1, state),
            b.updated(c, s2, state),
        ensures
            self.updated(c, s1.union(s2), state),
    {
        assert forall|p: usize| self.manages(p) implies #[trigger] c.page_at(p) == (if s1.union(
            s2,
        ).contains(p) {
            self.page_at(p).with_state(state).with_link(state == vm_page_state::FREE)
        } else {
            self.page_at(p)
        }) by {
            assert(b.manages(p));
            let l = state == vm_page_state::FREE;
            let x = self.page_at(p);
            vm_page::lemma_with(x, state, l);
            vm_page::lemma_with(x.with_state(state), state, l);
            let y = x.with_state(state).with_link(l);
            vm_page::lemma_with(y, state, l);
            vm_page::lemma_with(y.with_state(state), state, l);
        }
    }

    /// Pages that went from the free state to the allocated one and from
    /// there to a state in use went from the free state to that state.
    pub proof fn lemma_updated_restate(
        &self,
        b: &PmmNode,
        c: &PmmNode,
        pages: Set<usize>,
        state: vm_page_state_t,
    )
        requires
            self.updated(b, pages, vm_page_state::ALLOC),
            b.updated(c, pages, state),
            state != vm_page_state::FREE,
        ensures
            self.updated(c, pages, state),
    {
        assert forall|p: usize| self.manages(p) implies #[trigger] c.page_at(p) == (if pages.contains(
            p,
        ) {
            self.page_at(p).with_state(state).with_link(false)
        } else {
            self.page_at(p)
        }) by {
            assert(b.manages(p));
            let x = self.page_at(p);
            vm_page::lemma_with(x, vm_page_state::ALLOC, false);
            vm_page::lemma_with(x, state, false);
            vm_page::lemma_with(x.with_state(vm_page_state::ALLOC), state, false);
            vm_page::lemma_with(x.with_link(false), state, false);
            vm_page::lemma_with(x.with_link(false).with_state(vm_page_state::ALLOC), state, false);
            vm_page::lemma_with(x.with_state(state), state, false);
        }
    }

    /// Free pages that were allocated and freed again are what they were.
    pub proof fn lemma_updated_undone(&self, b: &PmmNode, c: &PmmNode, pages: Set<usize>)
        requires
            self.wf(),
            self.updated(b, pages, vm_page_state::ALLOC),
            b.updated(c, pages, vm_page_state::FREE),
            forall|p: usize|
                pages.contains(p) && self.manages(p) ==> (#[trigger] self.page_at(p)).spec_state()
                    == vm_page_state::FREE,
        ensures
            self.updated(c, Set::empty(), vm_page_state::ALLOC),
    {
        assert forall|p: usize| self.manages(p) implies #[trigger] c.page_at(p) == self.page_at(
            p,
        ) by {
            assert(b.manages(p));
            let x = self.page_at(p);
            if pages.contains(p) {
                assert(x.spec_in_list());
                vm_page::lemma_with(x, vm_page_state::ALLOC, false);
                vm_page::lemma_with(x, vm_page_state::FREE, true);
                vm_page::lemma_with(x.with_state(vm_page_state::ALLOC), vm_page_state::FREE, false);
                vm_page::lemma_with(x.with_link(false), vm_page_state::FREE, true);
                vm_page::lemma_with(
                    x.with_link(false).with_state(vm_page_state::ALLOC),
                    vm_page_state::FREE,
                    true,
                );
                vm_page::lemma_with(x.with_state(vm_page_state::FREE), vm_page_state::FREE, true);
                vm_page::lemma_with(
                    x.with_state(vm_page_state::ALLOC).with_link(false),
                    vm_page_state::FREE,
                    true,
                );
            }
        }
    }

    /// Takes `count` pages from the head of the free list and puts them
    /// behind the tail of `list`, or takes none at all when fewer than
    /// `count` pages are free.
    pub fn alloc_pages(&mut self, count: usize, alloc_flags: u32, list: &mut List<vm_page_t>) -> (r:
        Result<(), ErrNO>)
        requires
            old(self).wf(),
            old(list).spec_is_initialized(),
        ensures
            final(self).wf(),
            final(list).spec_is_initialized(),
            r is Err <==> count > old(self).spec_free_count(),
            r is Err ==> r == Err::<(), ErrNO>(ErrNO::NoMem) && final(self).free_pages() == old(self).free_pages() && old(self).updated(final(self), Set::empty(), vm_page_state::ALLOC)
                && final(list)@ == old(list)@,
            r is Ok ==> final(list)@ == old(list)@ + old(self).free_pages().subrange(0, count as int)
                && final(self).free_pages() == old(self).free_pages().subrange(
                count as int,
                old(self).free_pages().len() as int,
            ) && old(self).updated(
                final(self),
                old(self).free_pages().subrange(0, count as int).to_set(),
                vm_page_state::ALLOC,
            ),
    {
        if count > self.free_list.count {
            return Err(ErrNO::NoMem);
        }
        let ghost of = self.free_pages();
        let mut i: usize = 0;
        proof {
            assert(of.subrange(0, 0).to_set() =~= Set::<usize>::empty());
            assert(of.subrange(0, of.len() as int) =~= of);
            assert(list@ + of.subrange(0, 0) =~= list@);
        }
        while i < count
            invariant
                i <= count <= of.len(),
                of == old(self).free_pages(),
                old(self).wf(),
                self.wf(),
                list.spec_is_initialized(),
                self.free_pages() == of.subrange(i as int, of.len() as int),
                list@ == old(list)@ + of.subrange(0, i as int),
                old(self).updated(&*self, of.subrange(0, i as int).to_set(), vm_page_state::ALLOC),
            decreases count - i,
        {
            let ghost before = *self;
            let page = self.alloc_page(alloc_flags);
            let pa = page.unwrap();
            list.add_tail(pa);
            proof {
                assert(pa == of[i as int]);
                assert(self.free_pages() =~= of.subrange(i + 1, of.len() as int));
                assert(of.subrange(0, i as int).push(pa) =~= of.subrange(0, i + 1));
                assert(list@ =~= old(list)@ + of.subrange(0, i + 1));
                old(self).lemma_updated_trans(
                    &before,
                    &*self,
                    of.subrange(0, i as int).to_set(),
                    set![pa],
                    vm_page_state::ALLOC,
                );
                let sa = of.subrange(0, i as int);
                let sb = of.subrange(0, i + 1);
                assert(sa.to_set().union(set![pa]) =~= sb.to_set()) by {
                    assert forall|q: usize| sb.contains(q) <==> (sa.contains(q) || q == pa) by {
                        if sb.contains(q) {
                            let j = choose|j: int| 0 <= j < sb.len() && sb[j] == q;
                            if j < i {
                                assert(sa[j] == q);
                            }
                        }
                        if sa.contains(q) {
                            let j = choose|j: int| 0 <= j < sa.len() && sa[j] == q;
                            assert(sb[j] == q);
                        }
                        if q == pa {
                            assert(sb[i as int] == q);
                        }
                    }
                }
            }
            i += 1;
        }
        Ok(())
    }

    /// Returns the page at `pa` to the free list, behind its tail. A page
    /// the node does not manage is not found; a page that is free already
    /// is refused.
    pub fn free_page(&mut self, pa: paddr_t) -> (r: Result<(), ErrNO>)
        requires
            old(self).wf(),
        ensures
            final(self).wf(),
            r == Err::<(), ErrNO>(ErrNO::NotFound) <==> !old(self).manages(pa),
            r == Err::<(), ErrNO>(ErrNO::BadState) <==> old(self).manages(pa) && old(self).page_at(
                pa,
            ).spec_state() == vm_page_state::FREE,
            r is Err ==> (r == Err::<(), ErrNO>(ErrNO::NotFound) || r == Err::<(), ErrNO>(
                ErrNO::BadState,
            )) && final(self).free_pages() == old(self).free_pages() && old(self).updated(
                final(self),
                Set::empty(),
                vm_page_state::FREE,
            ),
            r is Ok ==> final(self).free_pages() == old(self).free_pages().push(pa) && old(self).updated(final(self), set![pa], vm_page_state::FREE),
    {
        if !is_page_aligned(pa) {
            return Err(ErrNO::NotFound);
        }
        match self.paddr_to_page(pa) {
            None => {
                return Err(ErrNO::NotFound);
            },
            Some(page) => {
                if page.is_free() {
                    return Err(ErrNO::BadState);
                }
            },
        }
        assert(self.manages(pa));
        self.free_list.list.add_tail(pa);
        self.free_list.count = self.free_list.list.len();
        let ghost mid = *self;
        assert(mid.spec_arenas() == old(self).spec_arenas());
        assert(forall|p: usize| mid.manages(p) == old(self).manages(p));
        assert(forall|p: usize| mid.page_at(p) == old(self).page_at(p));
        self.update_page(pa, vm_page_state::FREE, true);
        proof {
            let of = old(self).free_pages();
            let nf = self.free_pages();
            assert(nf == of.push(pa));
            assert forall|p: usize| self.manages(p) implies #[trigger] self.page_at(p) == (if p
                == pa {
                old(self).page_at(p).with_state(vm_page_state::FREE).with_link(true)
            } else {
                old(self).page_at(p)
            }) by {
                assert(mid.manages(p));
                assert(mid.page_at(p) == old(self).page_at(p));
            }
            vm_page::lemma_with(old(self).page_at(pa), vm_page_state::FREE, true);
            vm_page::lemma_with(
                old(self).page_at(pa).with_state(vm_page_state::FREE),
                vm_page_state::FREE,
                true,
            );
            assert(!of.contains(pa)) by {
                if of.contains(pa) {
                    let j = choose|j: int| 0 <= j < of.len() && of[j] == pa;
                    assert(old(self).page_at(of[j]).spec_state() == vm_page_state::FREE);
                }
            }
            assert forall|i: int| 0 <= i < nf.len() implies self.manages(#[trigger] nf[i])
                && self.page_at(nf[i]).spec_state() == vm_page_state::FREE by {
                if i < of.len() {
                    assert(nf[i] == of[i]);
                    assert(old(self).manages(of[i]));
                }
            }
            assert forall|p: usize|
                self.manages(p) && (#[trigger] self.page_at(p)).spec_state()
                    == vm_page_state::FREE implies nf.contains(p) by {
                if p == pa {
                    assert(nf[of.len() as int] == pa);
                } else {
                    assert(of.contains(p));
                    let j = choose|j: int| 0 <= j < of.len() && of[j] == p;
                    assert(nf[j] == p);
                }
            }
            assert(set![pa].contains(pa));
            assert(forall|p: usize| p != pa ==> !set![pa].contains(p));
        }
        Ok(())
    }

    /// Moves the page at `pa` from one state in use to another. A page the
    /// node does not manage is not found; the free state is refused on
    /// either side, since only allocating and freeing cross it.
    pub fn set_page_state(&mut self, pa: paddr_t, state: vm_page_state_t) -> (r: Result<(), ErrNO>)
        requires
            old(self).wf(),
        ensures
            final(self).wf(),
            final(self).free_pages() == old(self).free_pages(),
            old(self).same_arenas(final(self)),
            r == Err::<(), ErrNO>(ErrNO::NotFound) <==> !old(self).manages(pa),
            r == Err::<(), ErrNO>(ErrNO::BadState) <==> old(self).manages(pa) && (old(self).page_at(
                pa,
            ).spec_state() == vm_page_state::FREE || state == vm_page_state::FREE),
            r is Err ==> (r == Err::<(), ErrNO>(ErrNO::NotFound) || r == Err::<(), ErrNO>(
                ErrNO::BadState,
            )) && forall|p: usize|
                old(self).manages(p) ==> #[trigger] final(self).page_at(p) == old(self).page_at(p),
            r is Ok ==> forall|p: usize|
                old(self).manages(p) ==> #[trigger] final(self).page_at(p) == (if p == pa {
                    old(self).page_at(p).with_state(state)
                } else {
                    old(self).page_at(p)
                }),
    {
        if !is_page_aligned(pa) {
            return Err(ErrNO::NotFound);
        }
        match self.paddr_to_page(pa) {
            None => {
                return Err(ErrNO::NotFound);
            },
            Some(page) => {
                if page.is_free() || state == vm_page_state::FREE {
                    return Err(ErrNO::BadState);
                }
            },
        }
        assert(self.manages(pa));
        self.update_page(pa, state, false);
        proof {
            let x = old(self).page_at(pa);
            vm_page::lemma_with(x, state, false);
            vm_page::lemma_with(x.with_state(state), state, false);
            let of = old(self).free_pages();
            assert(!of.contains(pa)) by {
                if of.contains(pa) {
                    let j = choose|j: int| 0 <= j < of.len() && of[j] == pa;
                    assert(old(self).page_at(of[j]).spec_state() == vm_page_state::FREE);
                }
            }
            assert forall|i: int| 0 <= i < of.len() implies self.manages(#[trigger] of[i])
                && self.page_at(of[i]).spec_state() == vm_page_state::FREE by {
                assert(old(self).manages(of[i]));
            }
        }
        Ok(())
    }

    /// Where an arena at `base` goes in the sorted sequence: behind every
    /// arena that does not start above it.
    pub open spec fn arena_position(arenas: Seq<PmmArena>, base: int) -> int
        decreases arenas.len(),
    {
        if arenas.len() == 0 {
            0
        } else if arenas.last().spec_base() > base {
            Self::arena_position(arenas.drop_last(), base)
        } else {
            arenas.len() as int
        }
    }

    /// The range `[base, base + size)` overlaps an arena of the node.
    pub open spec fn overlaps_arena(&self, base: int, size: int) -> bool {
        exists|a: int|
            0 <= a < self.spec_arenas().len() && crate::klib::range::spec_intersects(
                (#[trigger] self.spec_arenas()[a]).spec_base() as int,
                self.spec_arenas()[a].spec_size() as int,
                base,
                size,
            )
    }

    /// Why `add_arena` refuses the arena that `info` describes, if it does.
    pub open spec fn add_arena_error(&self, info: ArenaInfo, res: Seq<BootReserveRange>) -> Option<
        ErrNO,
    > {
        if info.base % PAGE_SIZE != 0 || info.size % PAGE_SIZE != 0 || info.size == 0 {
            Some(ErrNO::BadAlign)
        } else if info.base + info.size > usize::MAX {
            Some(ErrNO::BadRange)
        } else if self.overlaps_arena(info.base as int, info.size as int) {
            Some(ErrNO::BadRange)
        } else {
            arena_init_error(res, info.base as int, info.size as int)
        }
    }

    proof fn lemma_arena_position(arenas: Seq<PmmArena>, base: int, i: int)
        requires
            0 <= i <= arenas.len(),
            forall|a: int, b: int|
                0 <= a < b < arenas.len() ==> (#[trigger] arenas[a]).spec_base() <= (
                #[trigger] arenas[b]).spec_base(),
            forall|k: int| 0 <= k < i ==> (#[trigger] arenas[k]).spec_base() <= base,
            i < arenas.len() ==> arenas[i].spec_base() > base,
        ensures
            Self::arena_position(arenas, base) == i,
        decreases arenas.len(),
    {
        if arenas.len() == 0 {
        } else if arenas.last().spec_base() > base {
            assert(i < arenas.len());
            Self::lemma_arena_position(arenas.drop_last(), base, i);
        } else {
            if i < arenas.len() {
                assert(arenas[i].spec_base() <= arenas[arenas.len() - 1].spec_base());
            }
        }
    }

    /// Putting a new arena between the others leaves the pages of the
    /// others where they were.
    proof fn lemma_insert_frame(&self, new: &PmmNode, pos: int)
        requires
            self.ranges_wf(),
            new.ranges_wf(),
            0 <= pos <= self.spec_arenas().len(),
            new.spec_arenas() == self.spec_arenas().insert(pos, new.spec_arenas()[pos]),
        ensures
            forall|p: usize| #[trigger] self.manages(p) ==> new.manages(p),
            forall|p: usize| self.manages(p) ==> #[trigger] new.page_at(p) == self.page_at(p),
            forall|p: usize|
                #[trigger] new.manages(p) ==> self.manages(p) || new.spec_arenas()[pos].contains(
                    p as int,
                ),
            forall|p: usize|
                new.spec_arenas()[pos].contains(p as int) ==> #[trigger] new.arena_of(p) == pos
                    && !self.manages(p),
    {
        let oa = self.spec_arenas();
        let na = new.spec_arenas();
        assert forall|p: usize| #[trigger] self.manages(p) implies new.manages(p) && new.page_at(p)
            == self.page_at(p) by {
            let a = self.arena_of(p);
            assert(0 <= a < oa.len() && oa[a].contains(p as int));
            let b = if a < pos {
                a
            } else {
                a + 1
            };
            assert(na[b] == oa[a]);
            assert(na[b].contains(p as int));
            new.lemma_arena_unique(b, p);
        }
        assert forall|p: usize| #[trigger] new.manages(p) implies self.manages(p) || na[pos].contains(
            p as int,
        ) by {
            let b = new.arena_of(p);
            assert(0 <= b < na.len() && na[b].contains(p as int));
            if b != pos {
                let a = if b < pos {
                    b
                } else {
                    b - 1
                };
                assert(na[b] == oa[a]);
                assert(oa[a].contains(p as int));
            }
        }
        assert forall|p: usize| na[pos].contains(p as int) implies #[trigger] new.arena_of(p) == pos
            && !self.manages(p) by {
            new.lemma_arena_unique(pos, p);
            if self.manages(p) {
                let a = self.arena_of(p);
                assert(0 <= a < oa.len() && oa[a].contains(p as int));
                let b = if a < pos {
                    a
                } else {
                    a + 1
                };
                assert(na[b] == oa[a]);
                new.lemma_arena_unique(b, p);
            }
        }
    }

    /// Registers the arena that `info` describes; this is done during
    /// early boot. The arena must be page aligned, nonempty and apart from
    /// every arena registered before. It hosts its own descriptors; the
    /// pages under them, which overlap no reservation of `res`, are wired,
    /// and every other page joins the free list, lowest first.
    pub fn add_arena(&mut self, info: ArenaInfo, res: &Vec<BootReserveRange>) -> (r: Result<
        (),
        ErrNO,
    >)
        requires
            old(self).wf(),
        ensures
            final(self).wf(),
            r == (match old(self).add_arena_error(info, res@) {
                Some(e) => Err::<(), ErrNO>(e),
                None => Ok::<(), ErrNO>(()),
            }),
            r is Err ==> final(self).spec_arenas() == old(self).spec_arenas() && final(self).free_pages() == old(self).free_pages(),
            r is Ok ==> ({
                let base = info.base as int;
                let size = info.size as int;
                let n = size / (PAGE_SIZE as int);
                let s = array_start_index(res@, base, size);
                let e = array_end_index(res@, base, size);
                let pos = Self::arena_position(old(self).spec_arenas(), base);
                &&& 0 <= s < e <= n
                &&& final(self).spec_arenas() == old(self).spec_arenas().insert(
                    pos,
                    final(self).spec_arenas()[pos],
                )
                &&& final(self).spec_arenas()[pos].spec_info() == info
                &&& final(self).spec_arenas()[pos].spec_pages().len() == n
                &&& final(self).free_pages() == old(self).free_pages() + free_addrs(base,
                    s,
                    e,
                    n,
                )
                &&& final(self).spec_free_count() == old(self).spec_free_count() + n - (e - s)
                &&& forall|p: usize|
                    old(self).manages(p) ==> #[trigger] final(self).page_at(p) == old(self).page_at(p)
                &&& forall|p: usize|
                    #[trigger] final(self).manages(p) <==> old(self).manages(p) || (p % PAGE_SIZE
                        == 0 && base <= p < base + size)
                &&& forall|i: int|
                    0 <= i < n ==> final(self).page_at((base + i * PAGE_SIZE) as usize)
                        == #[trigger] arena_page(base, s, e, i)
            }),
    {
        if !is_page_aligned(info.base) || !is_page_aligned(info.size) || info.size == 0 {
            return Err(ErrNO::BadAlign);
        }
        if info.size > usize::MAX - info.base {
            return Err(ErrNO::BadRange);
        }
        let base = info.base;
        let size = info.size;
        let mut i: usize = 0;
        while i < self.arenas.len()
            invariant
                i <= self.arenas@.len(),
                *self == *old(self),
                self.wf(),
                base == info.base,
                size == info.size,
                base % PAGE_SIZE == 0,
                size % PAGE_SIZE == 0,
                size > 0,
                base + size <= usize::MAX,
                forall|a: int|
                    0 <= a < i ==> !crate::klib::range::spec_intersects(
                        (#[trigger] self.arenas@[a]).spec_base() as int,
                        self.arenas@[a].spec_size() as int,
                        base as int,
                        size as int,
                    ),
            decreases self.arenas@.len() - i,
        {
            if crate::klib::range::intersects(
                self.arenas[i].info.base,
                self.arenas[i].info.size,
                base,
                size,
            ) {
                assert(crate::klib::range::spec_intersects(
                    self.spec_arenas()[i as int].spec_base() as int,
                    self.spec_arenas()[i as int].spec_size() as int,
                    base as int,
                    size as int,
                ));
                return Err(ErrNO::BadRange);
            }
            i += 1;
        }
        let mut arena = PmmArena::new(info);
        let mut list = List::<vm_page_t>::new();
        list.init();
        match arena.init(res, &mut list) {
            Err(e) => {
                return Err(e);
            },
            Ok(_) => {},
        }
        // Insert the arena in ascending order of its base address.
        let mut pos: usize = 0;
        while pos < self.arenas.len()
            invariant
                pos <= self.arenas@.len(),
                self.arenas@ == old(self).arenas@,
                forall|k: int| 0 <= k < pos ==> (#[trigger] self.arenas@[k]).spec_base() <= base,
            ensures
                pos < self.arenas@.len() ==> self.arenas@[pos as int].spec_base() > base,
            decreases self.arenas@.len() - pos,
        {
            if base < self.arenas[pos].info.base {
                break;
            }
            pos += 1;
        }
        let ghost n = size as int / (PAGE_SIZE as int);
        let ghost s = array_start_index(res@, base as int, size as int);
        let ghost e = array_end_index(res@, base as int, size as int);
        let ghost fresh = free_addrs(base as int, s, e, n);
        let ghost new_arena = arena;
        proof {
            assert forall|a: int, b: int| 0 <= a < b < self.arenas@.len() implies (
            #[trigger] self.arenas@[a]).spec_base() <= (#[trigger] self.arenas@[b]).spec_base() by {
                assert(old(self).spec_arenas()[a].spec_base() + old(self).spec_arenas()[a].spec_size() <= old(self).spec_arenas()[b].spec_base());
            }
            Self::lemma_arena_position(self.arenas@, base as int, pos as int);
            assert(list@ =~= fresh);
        }
        self.arenas.insert(pos, arena);
        let count = list.len();
        self.add_free_pages(&mut list, count);
        proof {
            let oa = old(self).spec_arenas();
            let na = self.spec_arenas();
            assert(na[pos as int] == new_arena);
            assert forall|a: int, b: int| 0 <= a < b < na.len() implies (
            #[trigger] na[a]).spec_base() + na[a].spec_size() <= (#[trigger] na[b]).spec_base() by {
                let xa = if a < pos {
                    a
                } else {
                    a - 1
                };
                let xb = if b < pos {
                    b
                } else {
                    b - 1
                };
                if a == pos {
                    assert(oa[pos as int].spec_base() <= oa[xb].spec_base()) by {
                        if xb > pos {
                            assert(oa[pos as int].spec_base() + oa[pos as int].spec_size()
                                <= oa[xb].spec_base());
                        }
                    }
                    assert(!crate::klib::range::spec_intersects(
                        oa[xb].spec_base() as int,
                        oa[xb].spec_size() as int,
                        base as int,
                        size as int,
                    ));
                    assert(oa[xb].wf());
                } else if b == pos {
                    assert(!crate::klib::range::spec_intersects(
                        oa[xa].spec_base() as int,
                        oa[xa].spec_size() as int,
                        base as int,
                        size as int,
                    ));
                    assert(oa[xa].wf());
                } else {
                    assert(oa[xa].spec_base() + oa[xa].spec_size() <= oa[xb].spec_base());
                }
            }
            assert forall|a: int| 0 <= a < na.len() implies (#[trigger] na[a]).wf() by {
                if a != pos {
                    let xa = if a < pos {
                        a
                    } else {
                        a - 1
                    };
                    assert(oa[xa].wf());
                }
            }
            assert(self.ranges_wf());
            old(self).lemma_insert_frame(&*self, pos as int);
            lemma_free_addrs(base as int, s, e, n);
            lemma_free_addrs_len(base as int, s, e, n);
            self.lemma_add_arena_wf(old(self), res@, pos as int, fresh);
        }
        Ok(())
    }

    /// After a new arena took its place and its free pages joined the
    /// list, state and membership of the list agree again.
    proof fn lemma_add_arena_wf(
        &self,
        old: &PmmNode,
        res: Seq<BootReserveRange>,
        pos: int,
        fresh: Seq<usize>,
    )
        requires
            old.wf(),
            self.ranges_wf(),
            self.spec_is_initialized(),
            0 <= pos <= old.spec_arenas().len(),
            self.spec_arenas() == old.spec_arenas().insert(pos, self.spec_arenas()[pos]),
            self.free_pages() == old.free_pages() + fresh,
            self.spec_free_count() == self.free_pages().len(),
            ({
                let arena = self.spec_arenas()[pos];
                let base = arena.spec_base() as int;
                let n = arena.spec_size() as int / (PAGE_SIZE as int);
                let s = array_start_index(res, base, arena.spec_size() as int);
                let e = array_end_index(res, base, arena.spec_size() as int);
                &&& fresh == free_addrs(base, s, e, n)
                &&& forall|i: int|
                    0 <= i < n ==> #[trigger] arena.spec_pages()[i] == arena_page(base, s, e, i)
            }),
            forall|p: usize| #[trigger] old.manages(p) ==> self.manages(p),
            forall|p: usize| old.manages(p) ==> #[trigger] self.page_at(p) == old.page_at(p),
            forall|p: usize|
                #[trigger] self.manages(p) ==> old.manages(p) || self.spec_arenas()[pos].contains(
                    p as int,
                ),
            forall|p: usize|
                self.spec_arenas()[pos].contains(p as int) ==> #[trigger] self.arena_of(p) == pos
                    && !old.manages(p),
        ensures
            self.wf(),
            ({
                let arena = self.spec_arenas()[pos];
                let base = arena.spec_base() as int;
                let n = arena.spec_size() as int / (PAGE_SIZE as int);
                let s = array_start_index(res, base, arena.spec_size() as int);
                let e = array_end_index(res, base, arena.spec_size() as int);
                forall|i: int|
                    0 <= i < n ==> self.page_at((base + i * PAGE_SIZE) as usize)
                        == #[trigger] arena_page(base, s, e, i)
            }),
    {
        let arena = self.spec_arenas()[pos];
        let base = arena.spec_base() as int;
        let size = arena.spec_size() as int;
        let n = size / (PAGE_SIZE as int);
        let s = array_start_index(res, base, size);
        let e = array_end_index(res, base, size);
        let of = old.free_pages();
        let nf = self.free_pages();
        assert(arena.wf());
        lemma_free_addrs(base, s, e, n);
        // What the descriptor of each page of the new arena says.
        assert forall|i: int| 0 <= i < n implies self.page_at((base + i * PAGE_SIZE) as usize)
            == #[trigger] arena_page(base, s, e, i) by {
            let p = (base + i * PAGE_SIZE) as usize;
            assert(arena.contains(p as int));
            assert(self.arena_of(p) == pos);
            assert(arena.spec_pages()[i] == arena_page(base, s, e, i));
        }
        assert forall|p: usize| arena.contains(p as int) && p % PAGE_SIZE == 0 implies ({
            let i = (p - base) / (PAGE_SIZE as int);
            &&& 0 <= i < n
            &&& base + i * PAGE_SIZE == p
            &&& #[trigger] self.page_at(p) == arena_page(base, s, e, i)
            &&& self.page_at(p).spec_state() == (if page_wired(base, s, e, i) {
                vm_page_state::WIRED
            } else {
                vm_page_state::FREE
            })
            &&& self.page_at(p).spec_in_list() == !page_wired(base, s, e, i)
            &&& !self.page_at(p).spec_is_loaned()
        }) by {
            lemma_index_in_arena(base, size, p as int);
            let i = (p - base) / (PAGE_SIZE as int);
            assert(self.arena_of(p) == pos);
            assert(arena.spec_pages()[i] == arena_page(base, s, e, i));
            let f = vm_page::spec_new(p);
            vm_page::lemma_spec_new(p);
            vm_page::lemma_with(f, vm_page_state::WIRED, true);
        }
        assert forall|i: int| 0 <= i < nf.len() implies self.manages(#[trigger] nf[i])
            && self.page_at(nf[i]).spec_state() == vm_page_state::FREE by {
            if i < of.len() {
                assert(nf[i] == of[i]);
                assert(old.manages(of[i]));
            } else {
                let x = fresh[i - of.len()];
                assert(nf[i] == x);
                assert(arena.contains(x as int));
                assert(self.arena_of(x) == pos);
            }
        }
        assert(nf.no_duplicates()) by {
            assert forall|i: int, j: int| 0 <= i < j < nf.len() implies nf[i] != nf[j] by {
                if j < of.len() {
                    assert(of[i] != of[j]);
                } else if i >= of.len() {
                    assert(fresh[i - of.len()] != fresh[j - of.len()]);
                } else {
                    let x = fresh[j - of.len()];
                    assert(arena.contains(x as int));
                    assert(self.arena_of(x) == pos);
                    assert(old.manages(of[i]));
                }
            }
        }
        assert forall|p: usize|
            self.manages(p) && (#[trigger] self.page_at(p)).spec_state()
                == vm_page_state::FREE implies nf.contains(p) by {
            if old.manages(p) {
                assert(of.contains(p));
                let j = choose|j: int| 0 <= j < of.len() && of[j] == p;
                assert(nf[j] == p);
            } else {
                assert(arena.contains(p as int));
                let i = (p - base) / (PAGE_SIZE as int);
                assert(!page_wired(base, s, e, i));
                assert(fresh.contains((base + i * PAGE_SIZE) as usize));
                let j = choose|j: int| 0 <= j < fresh.len() && fresh[j] == p;
                assert(nf[of.len() + j] == p);
            }
        }
        assert forall|p: usize| self.manages(p) implies (#[trigger] self.page_at(p)).spec_in_list()
            == (self.page_at(p).spec_state() == vm_page_state::FREE) && !self.page_at(
            p,
        ).spec_is_loaned() by {
            if old.manages(p) {
            } else {
                assert(arena.contains(p as int));
            }
        }
    }

    /// Every one of the `count` pages from `address` on is managed and
    /// free.
    pub open spec fn run_is_free(&self, address: int, count: int) -> bool {
        &&& address + count * PAGE_SIZE <= usize::MAX
        &&& forall|p: usize|
            Self::run_pages(address, count).contains(p) ==> #[trigger] self.manages(p)
                && self.page_at(p).spec_state() == vm_page_state::FREE
    }

    /// The pages of the run of `count` pages from `address` on.
    pub open spec fn run_pages(address: int, count: int) -> Set<usize> {
        Set::new(|p: usize| address <= p < address + count * PAGE_SIZE && (p - address) % (
        PAGE_SIZE as int) == 0)
    }

    /// Tells whether every one of the `count` pages from `address` on is
    /// managed, free and not loaned.
    fn check_run(&self, address: paddr_t, count: usize) -> (r: bool)
        requires
            self.wf(),
            address % PAGE_SIZE == 0,
        ensures
            r == self.run_is_free(address as int, count as int),
            r ==> address + count * PAGE_SIZE <= usize::MAX,
    {
        let mut k: usize = 0;
        let mut a = address;
        while k < count
            invariant
                self.wf(),
                address % PAGE_SIZE == 0,
                k <= count,
                a == address + k * PAGE_SIZE,
                self.run_is_free(address as int, k as int),
            decreases count - k,
        {
            assert(a % PAGE_SIZE == 0);
            proof {
                lemma_run_pages_step(address as int, k as int, a);
                lemma_run_pages_mono(address as int, k + 1, count as int, a);
            }
            match self.paddr_to_page(a) {
                None => {
                    assert(!self.manages(a));
                    return false;
                },
                Some(page) => {
                    assert(self.manages(a));
                    if !page.is_free() || page.is_loaned() {
                        return false;
                    }
                    proof {
                        let arena = self.spec_arenas()[self.arena_of(a)];
                        assert(arena.wf() && arena.contains(a as int));
                    }
                },
            }
            proof {
                assert forall|p: usize|
                    Self::run_pages(address as int, k + 1).contains(p) implies #[trigger] self.manages(
                    p,
                ) && self.page_at(p).spec_state() == vm_page_state::FREE by {
                    lemma_run_pages_step(address as int, k as int, p);
                }
            }
            a = a + PAGE_SIZE;
            k += 1;
        }
        true
    }

    /// Takes the `count` pages from the page of `address` on out of the
    /// free list and puts them behind the tail of `list`, lowest first.
    /// This is all or nothing: unless every one of them is managed and
    /// free, none is taken.
    pub fn alloc_range(&mut self, address: paddr_t, count: usize, list: &mut List<vm_page_t>) -> (r:
        Result<(), ErrNO>)
        requires
            old(self).wf(),
            old(list).spec_is_initialized(),
        ensures
            final(self).wf(),
            final(list).spec_is_initialized(),
            r is Ok <==> old(self).run_is_free(
                spec_rounddown(address as int, PAGE_SIZE as int),
                count as int,
            ),
            r is Err ==> r == Err::<(), ErrNO>(ErrNO::NotFound) && final(self).free_pages() == old(self).free_pages() && old(self).updated(final(self), Set::empty(), vm_page_state::ALLOC)
                && final(list)@ == old(list)@,
            r is Ok ==> ({
                let first = spec_rounddown(address as int, PAGE_SIZE as int);
                &&& final(list)@ == old(list)@ + Seq::new(
                    count as nat,
                    |k: int| (first + k * PAGE_SIZE) as usize,
                )
                &&& final(self).free_pages() == without_range(
                    old(self).free_pages(),
                    first,
                    first + count * PAGE_SIZE,
                )
                &&& old(self).updated(
                    final(self),
                    Self::run_pages(first, count as int),
                    vm_page_state::ALLOC,
                )
            }),
    {
        let first = rounddown(address, PAGE_SIZE);
        if !self.check_run(first, count) {
            return Err(ErrNO::NotFound);
        }
        if count == 0 {
            proof {
                assert(list@ + Seq::new(0nat, |k: int| (first + k * PAGE_SIZE) as usize) =~= list@);
                lemma_without_all_kept(self.free_pages(), first as int);
                assert(Self::run_pages(first as int, 0) =~= Set::<usize>::empty());
            }
            return Ok(());
        }
        self.take_run(first, count, list);
        Ok(())
    }

    /// The first `k` pages of `s` can be freed one after the other: none
    /// occurs twice among them, and each is managed and not free.
    pub open spec fn freeable(&self, s: Seq<usize>, k: int) -> bool {
        &&& s.take(k).no_duplicates()
        &&& forall|j: int|
            0 <= j < k ==> self.manages(#[trigger] s[j]) && self.page_at(s[j]).spec_state()
                != vm_page_state::FREE
    }

    /// Returns the pages of `list` to the free list, one after the other
    /// in the order of `list`, and stops at the first that cannot be
    /// freed: a page that is not managed is not found, and one that is
    /// free already, or occurred earlier in `list`, is refused.
    pub fn free_list(&mut self, list: &List<vm_page_t>) -> (r: Result<(), ErrNO>)
        requires
            old(self).wf(),
        ensures
            final(self).wf(),
            r is Ok <==> old(self).freeable(list@, list@.len() as int),
            exists|k: int|
                {
                    &&& 0 <= k <= list@.len()
                    &&& old(self).freeable(list@, k)
                    &&& (k == list@.len() <==> r is Ok)
                    &&& k < list@.len() ==> !old(self).freeable(list@, k + 1) && r == Err::<
                        (),
                        ErrNO,
                    >(
                        if !old(self).manages(list@[k]) {
                            ErrNO::NotFound
                        } else {
                            ErrNO::BadState
                        },
                    )
                    &&& final(self).free_pages() == old(self).free_pages() + #[trigger] list@.take(
                        k,
                    )
                    &&& old(self).updated(final(self), list@.take(k).to_set(), vm_page_state::FREE)
                },
    {
        let mut i: usize = 0;
        proof {
            assert(list@.take(0).to_set() =~= Set::<usize>::empty());
            assert(self.free_pages() + list@.take(0) =~= self.free_pages());
        }
        while i < list.len()
            invariant
                i <= list@.len(),
                old(self).wf(),
                self.wf(),
                old(self).freeable(list@, i as int),
                self.free_pages() == old(self).free_pages() + list@.take(i as int),
                old(self).updated(&*self, list@.take(i as int).to_set(), vm_page_state::FREE),
            decreases list@.len() - i,
        {
            let x = list.get(i);
            let ghost before = *self;
            let ghost sa = list@.take(i as int);
            let ghost sb = list@.take(i + 1);
            proof {
                assert(sb.drop_last() =~= sa);
                assert(sb.last() == x);
                vm_page::lemma_with(old(self).page_at(x), vm_page_state::FREE, true);
                vm_page::lemma_with(
                    old(self).page_at(x).with_state(vm_page_state::FREE),
                    vm_page_state::FREE,
                    true,
                );
                if sa.contains(x) {
                    assert(sa.to_set().contains(x));
                    let j = choose|j: int| 0 <= j < sa.len() && sa[j] == x;
                    assert(sb[j] == sb[i as int]);
                }
            }
            match self.free_page(x) {
                Err(e) => {
                    proof {
                        assert(before.updated(&*self, Set::empty(), vm_page_state::FREE));
                        old(self).lemma_updated_trans(
                            &before,
                            &*self,
                            sa.to_set(),
                            Set::empty(),
                            vm_page_state::FREE,
                        );
                        assert(sa.to_set().union(Set::empty()) =~= sa.to_set());
                        if old(self).freeable(list@, i + 1) {
                            assert(old(self).manages(list@[i as int]));
                            assert(!sa.contains(x)) by {
                                if sa.contains(x) {
                                    let j = choose|j: int| 0 <= j < sa.len() && sa[j] == x;
                                    assert(sb[j] == sb[i as int]);
                                }
                            }
                            assert(!sa.to_set().contains(x));
                        }
                    }
                    return Err(e);
                },
                Ok(_) => {},
            }
            proof {
                assert(self.free_pages() =~= old(self).free_pages() + sb);
                old(self).lemma_updated_trans(
                    &before,
                    &*self,
                    sa.to_set(),
                    set![x],
                    vm_page_state::FREE,
                );
                assert(sa.to_set().union(set![x]) =~= sb.to_set()) by {
                    assert forall|q: usize| sb.contains(q) <==> (sa.contains(q) || q == x) by {
                        if sb.contains(q) {
                            let j = choose|j: int| 0 <= j < sb.len() && sb[j] == q;
                            if j < i {
                                assert(sa[j] == q);
                            }
                        }
                        if sa.contains(q) {
                            let j = choose|j: int| 0 <= j < sa.len() && sa[j] == q;
                            assert(sb[j] == q);
                        }
                        if q == x {
                            assert(sb[i as int] == q);
                        }
                    }
                }
                assert(!sa.contains(x));
                assert(sb.no_duplicates()) by {
                    assert forall|a: int, b: int| 0 <= a < b < sb.len() implies sb[a] != sb[b] by {
                        if b < i {
                            assert(sa[a] != sa[b]);
                        } else {
                            assert(sa[a] == sb[a]);
                            assert(sa.contains(sb[a]));
                        }
                    }
                }
            }
            i += 1;
        }
        proof {
            assert(list@.take(i as int) =~= list@);
        }
        Ok(())
    }

    /// Takes the run of `count` free pages from `first` on out of the free
    /// list and puts them behind the tail of `list`, lowest first.
    fn take_run(&mut self, first: paddr_t, count: usize, list: &mut List<vm_page_t>)
        requires
            old(self).wf(),
            old(list).spec_is_initialized(),
            first % PAGE_SIZE == 0,
            count > 0,
            old(self).run_is_free(first as int, count as int),
        ensures
            final(self).wf(),
            final(list).spec_is_initialized(),
            final(list)@ == old(list)@ + Seq::new(
                count as nat,
                |k: int| (first + k * PAGE_SIZE) as usize,
            ),
            final(self).free_pages() == without_range(
                old(self).free_pages(),
                first as int,
                first + count * PAGE_SIZE,
            ),
            old(self).updated(
                final(self),
                Self::run_pages(first as int, count as int),
                vm_page_state::ALLOC,
            ),
            final(self).spec_free_count() == old(self).spec_free_count() - count,
    {
        proof {
            self.lemma_run_count(first as int, count as int);
            lemma_count_in_range(
                self.free_pages(),
                first as int,
                first as int,
                first + count * PAGE_SIZE,
            );
        }
        let end = first + count * PAGE_SIZE;
        self.free_list.list.remove_range(first, end);
        self.free_list.count = self.free_list.list.len();
        let ghost mid = *self;
        let mut k: usize = 0;
        proof {
            assert(list@ + Seq::new(0nat, |j: int| (first + j * PAGE_SIZE) as usize) =~= list@);
            assert(mid.spec_arenas() == old(self).spec_arenas());
            assert(forall|p: usize| mid.manages(p) == old(self).manages(p));
            assert(forall|p: usize| mid.page_at(p) == old(self).page_at(p));
        }
        while k < count
            invariant
                k <= count,
                first % PAGE_SIZE == 0,
                end == first + count * PAGE_SIZE,
                old(self).wf(),
                old(self).run_is_free(first as int, count as int),
                self.ranges_wf(),
                self.free_list == mid.free_list,
                list.spec_is_initialized(),
                list@ == old(list)@ + Seq::new(k as nat, |j: int| (first + j * PAGE_SIZE) as usize),
                old(self).same_arenas(&*self),
                forall|p: usize|
                    old(self).manages(p) ==> #[trigger] self.page_at(p) == (if Self::run_pages(
                        first as int,
                        k as int,
                    ).contains(p) {
                        old(self).page_at(p).with_state(vm_page_state::ALLOC).with_link(false)
                    } else {
                        old(self).page_at(p)
                    }),
            decreases count - k,
        {
            proof {
                lemma_run_pages_step(first as int, k as int, (first + k * PAGE_SIZE) as usize);
                lemma_run_pages_mono(
                    first as int,
                    k + 1,
                    count as int,
                    (first + k * PAGE_SIZE) as usize,
                );
                assert(k * PAGE_SIZE < count * PAGE_SIZE) by (nonlinear_arith)
                    requires
                        0 <= k < count,
                ;
            }
            let a = first + k * PAGE_SIZE;
            let ghost before = *self;
            assert(old(self).manages(a));
            self.update_page(a, vm_page_state::ALLOC, false);
            list.add_tail(a);
            proof {
                assert(list@ =~= old(list)@ + Seq::new(
                    (k + 1) as nat,
                    |j: int| (first + j * PAGE_SIZE) as usize,
                ));
                assert forall|p: usize| old(self).manages(p) implies #[trigger] self.page_at(p) == (
                if Self::run_pages(first as int, k + 1).contains(p) {
                    old(self).page_at(p).with_state(vm_page_state::ALLOC).with_link(false)
                } else {
                    old(self).page_at(p)
                }) by {
                    assert(before.manages(p));
                    lemma_run_pages_step(first as int, k as int, p);
                }
                assert forall|p: usize| self.manages(p) == old(self).manages(p) by {
                    assert(before.manages(p) == old(self).manages(p));
                }
            }
            k += 1;
        }
        proof {
            self.lemma_alloc_range_wf(old(self), first as int, count as int);
        }
    }

    /// The free list names each page of a free run once.
    #[verifier::rlimit(100)]
    #[verifier::spinoff_prover]
    proof fn lemma_run_count(&self, first: int, count: int)
        requires
            self.wf(),
            0 <= first,
            0 <= count,
            first % (PAGE_SIZE as int) == 0,
            self.run_is_free(first, count),
        ensures
            count_in_range(self.free_pages(), first, first + count * PAGE_SIZE) == count,
        decreases count,
    {
        let s = self.free_pages();
        if count == 0 {
            lemma_count_in_range(s, first, first, first);
            lemma_count_empty(s, first);
        } else {
            let lo = first + (count - 1) * PAGE_SIZE;
            assert forall|p: usize|
                Self::run_pages(first, count - 1).contains(p) implies #[trigger] self.manages(p)
                && self.page_at(p).spec_state() == vm_page_state::FREE by {
                lemma_run_pages_mono(first, count - 1, count, p);
            }
            self.lemma_run_count(first, count - 1);
            lemma_count_in_range(s, first, lo, lo + PAGE_SIZE);
            assert(0 <= lo && lo + PAGE_SIZE == first + count * PAGE_SIZE) by (nonlinear_arith)
                requires
                    lo == first + (count - 1) * PAGE_SIZE,
                    0 <= first,
                    count >= 1,
            ;
            let x = lo as usize;
            lemma_run_pages_step(first, count - 1, x);
            assert(Self::run_pages(first, count).contains(x));
            assert(self.run_is_free(first, count));
            assert(self.manages(x));
            assert(self.page_at(x).spec_state() == vm_page_state::FREE);
            assert(s.contains(x));
            assert forall|i: int| 0 <= i < s.len() && lo <= #[trigger] s[i] < lo
                + PAGE_SIZE implies s[i] == x by {
                assert(self.manages(s[i]));
                assert(s[i] % PAGE_SIZE == 0);
                assert(lo % (PAGE_SIZE as int) == 0) by (nonlinear_arith)
                    requires
                        lo == first + (count - 1) * PAGE_SIZE,
                        first % (PAGE_SIZE as int) == 0,
                ;
            }
            lemma_count_one(s, lo, lo + PAGE_SIZE, x);
        }
    }

    /// After a free run left the free list and its pages became
    /// allocated, state and membership of the list agree again.
    proof fn lemma_alloc_range_wf(&self, old: &PmmNode, first: int, count: int)
        requires
            old.wf(),
            0 <= first,
            0 <= count,
            first % (PAGE_SIZE as int) == 0,
            old.run_is_free(first, count),
            self.ranges_wf(),
            self.spec_is_initialized(),
            self.spec_free_count() == self.free_pages().len(),
            self.free_pages() == without_range(old.free_pages(), first, first + count * PAGE_SIZE),
            old.same_arenas(self),
            forall|p: usize|
                old.manages(p) ==> #[trigger] self.page_at(p) == (if Self::run_pages(
                    first,
                    count,
                ).contains(p) {
                    old.page_at(p).with_state(vm_page_state::ALLOC).with_link(false)
                } else {
                    old.page_at(p)
                }),
        ensures
            self.wf(),
    {
        let end = first + count * PAGE_SIZE;
        let of = old.free_pages();
        let nf = self.free_pages();
        lemma_without_range(of, first, end);
        assert forall|p: usize| self.manages(p) implies ({
            &&& (#[trigger] self.page_at(p)).spec_in_list() == (self.page_at(p).spec_state()
                == vm_page_state::FREE)
            &&& !self.page_at(p).spec_is_loaned()
            &&& self.page_at(p).spec_state() == vm_page_state::FREE ==> nf.contains(p)
        }) by {
            assert(old.manages(p));
            assert(p % PAGE_SIZE == 0);
            assert(Self::run_pages(first, count).contains(p) <==> first <= p < end);
            if first <= p < end {
                assert(old.page_at(p).spec_state() == vm_page_state::FREE);
            }
            let x = old.page_at(p);
            vm_page::lemma_with(x, vm_page_state::ALLOC, false);
            vm_page::lemma_with(x.with_state(vm_page_state::ALLOC), vm_page_state::ALLOC, false);
            if self.page_at(p).spec_state() == vm_page_state::FREE {
                assert(of.contains(p));
                assert(nf.contains(p));
            }
        }
        assert forall|i: int| 0 <= i < nf.len() implies self.manages(#[trigger] nf[i])
            && self.page_at(nf[i]).spec_state() == vm_page_state::FREE by {
            assert(nf.contains(nf[i]));
            assert(of.contains(nf[i]));
            let j = choose|j: int| 0 <= j < of.len() && of[j] == nf[i];
            assert(old.manages(of[j]));
            assert(!Self::run_pages(first, count).contains(nf[i]));
        }
    }

    /// Gives the pages `paddrs`, none of which is free, the state
    /// `state`, which is not the free one.
    pub(crate) fn set_states(&mut self, paddrs: &Vec<usize>, state: vm_page_state_t)
        requires
            old(self).wf(),
            state != vm_page_state::FREE,
            paddrs@.no_duplicates(),
            forall|i: int|
                0 <= i < paddrs@.len() ==> old(self).manages(#[trigger] paddrs@[i]) && old(
                    self,
                ).page_at(paddrs@[i]).spec_state() != vm_page_state::FREE,
        ensures
            final(self).wf(),
            final(self).free_pages() == old(self).free_pages(),
            old(self).updated(final(self), paddrs@.to_set(), state),
    {
        let num_pages = paddrs.len();
        let ghost taken = paddrs@;
        let mut i: usize = 0;
        while i < num_pages
            invariant
                i <= num_pages,
                num_pages == taken.len(),
                state != vm_page_state::FREE,
                paddrs@ == taken,
                taken.no_duplicates(),
                old(self).wf(),
                self.wf(),
                self.free_pages() == old(self).free_pages(),
                old(self).same_arenas(&*self),
                forall|k: int|
                    0 <= k < taken.len() ==> old(self).manages(#[trigger] taken[k]) && old(
                        self,
                    ).page_at(taken[k]).spec_state() != vm_page_state::FREE,
                forall|p: usize|
                    old(self).manages(p) ==> #[trigger] self.page_at(p) == (if taken.subrange(
                        0,
                        i as int,
                    ).contains(p) {
                        old(self).page_at(p).with_state(state).with_link(false)
                    } else {
                        old(self).page_at(p)
                    }),
            decreases num_pages - i,
        {
            let pa = paddrs[i];
            let ghost before = *self;
            proof {
                assert(old(self).manages(taken[i as int]));
                assert(!taken.subrange(0, i as int).contains(pa)) by {
                    if taken.subrange(0, i as int).contains(pa) {
                        let j = choose|j: int| 0 <= j < i && taken.subrange(0, i as int)[j] == pa;
                        assert(taken[j] == taken[i as int]);
                    }
                }
            }
            let res = self.set_page_state(pa, state);
            proof {
                assert(res is Ok);
                assert forall|p: usize| old(self).manages(p) implies #[trigger] self.page_at(p) == (
                if taken.subrange(0, i + 1).contains(p) {
                    old(self).page_at(p).with_state(state).with_link(false)
                } else {
                    old(self).page_at(p)
                }) by {
                    assert(before.manages(p));
                    let sa = taken.subrange(0, i as int);
                    let sb = taken.subrange(0, i + 1);
                    if sb.contains(p) {
                        let j = choose|j: int| 0 <= j < sb.len() && sb[j] == p;
                        if j < i {
                            assert(sa[j] == p);
                        }
                    }
                    if sa.contains(p) {
                        let j = choose|j: int| 0 <= j < sa.len() && sa[j] == p;
                        assert(sb[j] == p);
                    }
                    if p == pa {
                        assert(sb[i as int] == p);
                        let x = old(self).page_at(p);
                        assert(!x.spec_in_list());
                        vm_page::lemma_with(x, state, false);
                        vm_page::lemma_with(x.with_state(state), state, false);
                    }
                }
            }
            i += 1;
        }
        proof {
            assert(taken.subrange(0, num_pages as int) =~= taken);
        }
    }

    /// A run is free exactly when the free list names each of its pages.
    pub proof fn lemma_chunk_is_free(&self, a: int, count: int, align: int)
        requires
            self.wf(),
        ensures
            self.contig_ok(a, count, align) == has_chunk(self.free_pages(), a, count, align),
    {
        reveal(has_chunk);
        let free = self.free_pages();
        if self.contig_ok(a, count, align) {
            assert forall|p: usize| Self::run_pages(a, count).contains(p) implies #[trigger] free.contains(
                p,
            ) by {
                assert(self.manages(p));
            }
        }
        if has_chunk(free, a, count, align) {
            assert forall|p: usize| Self::run_pages(a, count).contains(p) implies #[trigger] self.manages(
                p,
            ) && self.page_at(p).spec_state() == vm_page_state::FREE by {
                assert(free.contains(p));
                let i = choose|i: int| 0 <= i < free.len() && free[i] == p;
                assert(self.manages(free[i]));
            }
        }
    }

    /// Pages that were taken from this node's free pages are allocated
    /// in the node `mid` that came of it, and can be freed there.
    proof fn lemma_taken_freeable(&self, before: &PmmNode, mid: &PmmNode, taken: Seq<usize>)
        requires
            self.wf(),
            self.updated(before, taken.to_set(), vm_page_state::ALLOC),
            before.updated(mid, Set::empty(), vm_page_state::ALLOC),
            taken.no_duplicates(),
            forall|k: int|
                0 <= k < taken.len() ==> self.manages(#[trigger] taken[k]) && self.page_at(
                    taken[k],
                ).spec_state() == vm_page_state::FREE,
        ensures
            self.updated(mid, taken.to_set(), vm_page_state::ALLOC),
            mid.freeable(taken, taken.len() as int),
            forall|p: usize|
                taken.to_set().contains(p) && self.manages(p) ==> (#[trigger] self.page_at(
                    p,
                )).spec_state() == vm_page_state::FREE,
    {
        self.lemma_updated_trans(
            before,
            mid,
            taken.to_set(),
            Set::empty(),
            vm_page_state::ALLOC,
        );
        assert(taken.to_set().union(Set::<usize>::empty()) =~= taken.to_set());
        assert(taken.take(taken.len() as int) =~= taken);
        assert forall|j: int| 0 <= j < taken.len() implies mid.manages(#[trigger] taken[j])
            && mid.page_at(taken[j]).spec_state() != vm_page_state::FREE by {
            assert(self.manages(taken[j]));
            assert(taken.to_set().contains(taken[j]));
            vm_page::lemma_with(self.page_at(taken[j]), vm_page_state::ALLOC, false);
            vm_page::lemma_with(
                self.page_at(taken[j]).with_state(vm_page_state::ALLOC),
                vm_page_state::ALLOC,
                false,
            );
        }
        assert forall|p: usize| taken.to_set().contains(p) && self.manages(p) implies (
        #[trigger] self.page_at(p)).spec_state() == vm_page_state::FREE by {
            let j = choose|j: int| 0 <= j < taken.len() && taken[j] == p;
            assert(self.manages(taken[j]));
        }
    }

    /// After a free run was taken from the node `before`, in which the
    /// pages of `taken` were allocated already, the pages of both are
    /// allocated, all of them were free in this node, and none is named
    /// twice.
    pub proof fn lemma_run_taken(
        &self,
        before: &PmmNode,
        after: &PmmNode,
        taken: Seq<usize>,
        pa: int,
        count: int,
    )
        requires
            self.wf(),
            before.wf(),
            0 <= pa,
            0 <= count,
            self.updated(before, taken.to_set(), vm_page_state::ALLOC),
            before.updated(after, Self::run_pages(pa, count), vm_page_state::ALLOC),
            before.run_is_free(pa, count),
            taken.no_duplicates(),
            forall|k: int|
                0 <= k < taken.len() ==> self.manages(#[trigger] taken[k]) && self.page_at(
                    taken[k],
                ).spec_state() == vm_page_state::FREE,
        ensures
            self.updated(after, (taken + run_seq(pa, count)).to_set(), vm_page_state::ALLOC),
            (taken + run_seq(pa, count)).no_duplicates(),
            (taken + run_seq(pa, count)).len() == taken.len() + count,
            forall|k: int|
                0 <= k < taken.len() + count ==> self.manages(
                    #[trigger] (taken + run_seq(pa, count))[k],
                ) && self.page_at((taken + run_seq(pa, count))[k]).spec_state()
                    == vm_page_state::FREE,
    {
        let run = run_seq(pa, count);
        let all = taken + run;
        lemma_run_seq(pa, count);
        self.lemma_updated_trans(
            before,
            after,
            taken.to_set(),
            Self::run_pages(pa, count),
            vm_page_state::ALLOC,
        );
        lemma_concat_set(taken, run);
        assert forall|k: int| 0 <= k < run.len() implies self.manages(#[trigger] run[k])
            && self.page_at(run[k]).spec_state() == vm_page_state::FREE && !taken.contains(
            run[k],
        ) by {
            let p = run[k];
            assert(run.to_set().contains(p));
            assert(Self::run_pages(pa, count).contains(p));
            assert(before.manages(p));
            assert(before.page_at(p).spec_state() == vm_page_state::FREE);
            if taken.contains(p) {
                let j = choose|j: int| 0 <= j < taken.len() && taken[j] == p;
                assert(taken.to_set().contains(taken[j]));
                vm_page::lemma_with(self.page_at(taken[j]), vm_page_state::ALLOC, false);
                vm_page::lemma_with(
                    self.page_at(taken[j]).with_state(vm_page_state::ALLOC),
                    vm_page_state::ALLOC,
                    false,
                );
            }
            assert(!taken.to_set().contains(p));
        }
        lemma_concat_distinct(taken, run);
        assert forall|k: int| 0 <= k < taken.len() + count implies self.manages(#[trigger] all[k])
            && self.page_at(all[k]).spec_state() == vm_page_state::FREE by {
            if k < taken.len() {
                assert(all[k] == taken[k]);
            } else {
                assert(all[k] == run[k - taken.len()]);
            }
        }
    }

    /// Where no aligned run is free, the free list names none.
    proof fn lemma_no_chunk(&self, count: int, align: int)
        requires
            self.wf(),
            !exists|a: int| #[trigger] self.contig_ok(a, count, align),
        ensures
            !some_chunk(self.free_pages(), count, align),
    {
        assert forall|a: int| !has_chunk(self.free_pages(), a, count, align) by {
            self.lemma_chunk_is_free(a, count, align);
            assert(!self.contig_ok(a, count, align));
        }
    }

    /// After the lowest free aligned run was taken from the node
    /// `before`, in which the pages of `taken` were allocated already:
    /// what taking `n` runs from `before` gives is that run before what
    /// taking the others from `after` gives; and the pages of `taken` and
    /// of the run are allocated, all of them were free in this node, and
    /// none is named twice.
    proof fn lemma_run_carved(
        &self,
        before: &PmmNode,
        after: &PmmNode,
        taken: Seq<usize>,
        all: Seq<usize>,
        pa: int,
        count: int,
        align: int,
        n: nat,
    )
        requires
            self.wf(),
            before.wf(),
            0 <= count,
            n > 0,
            before.contig_ok(pa, count, align),
            forall|a: int| a < pa ==> !#[trigger] before.contig_ok(a, count, align),
            all == taken + Seq::new(count as nat, |k: int| (pa + k * PAGE_SIZE) as usize),
            after.free_pages() == without_range(before.free_pages(), pa, pa + count * PAGE_SIZE),
            self.updated(before, taken.to_set(), vm_page_state::ALLOC),
            before.updated(after, Self::run_pages(pa, count), vm_page_state::ALLOC),
            taken.no_duplicates(),
            forall|k: int|
                0 <= k < taken.len() ==> self.manages(#[trigger] taken[k]) && self.page_at(
                    taken[k],
                ).spec_state() == vm_page_state::FREE,
        ensures
            carved(before.free_pages(), n, count, align) == joined(
                run_seq(pa, count),
                carved(after.free_pages(), (n - 1) as nat, count, align),
            ),
            some_chunk(before.free_pages(), count, align),
            first_chunk(before.free_pages(), count, align) == pa,
            all == taken + run_seq(pa, count),
            self.updated(after, all.to_set(), vm_page_state::ALLOC),
            all.no_duplicates(),
            all.len() == taken.len() + count,
            forall|k: int|
                0 <= k < all.len() ==> self.manages(#[trigger] all[k]) && self.page_at(
                    all[k],
                ).spec_state() == vm_page_state::FREE,
    {
        assert forall|a: int|
            before.contig_ok(a, count, align) == #[trigger] has_chunk(
                before.free_pages(),
                a,
                count,
                align,
            ) by {
            before.lemma_chunk_is_free(a, count, align);
        }
        lemma_first_chunk(before.free_pages(), pa, count, align);
        assert(all =~= taken + run_seq(pa, count));
        self.lemma_run_taken(before, after, taken, pa, count);
    }

    /// Takes `runs` runs of `count` physically contiguous free pages each,
    /// every run at a multiple of `2^alignment_log2` and the lowest such
    /// run there is when it is taken, and puts their pages on the empty
    /// list `list`, in the order in which they were taken. Where one of
    /// the runs is not to be had, the pages taken so far go back behind
    /// the tail of the free list, and `list` stays empty.
    pub(crate) fn alloc_runs(
        &mut self,
        runs: usize,
        count: usize,
        alignment_log2: usize,
        list: &mut List<vm_page_t>,
    ) -> (r: Result<(), ErrNO>)
        requires
            old(self).wf(),
            old(list).spec_is_initialized(),
            old(list)@.len() == 0,
            count > 0,
            PAGE_SHIFT < alignment_log2,
            align_fits(alignment_log2 as int),
        ensures
            final(self).wf(),
            final(list).spec_is_initialized(),
            r is Ok <==> carved(
                old(self).free_pages(),
                runs as nat,
                count as int,
                spec_align(alignment_log2 as int),
            ) is Some,
            r is Err ==> final(self).free_pages() == carved_part(
                old(self).free_pages(),
                runs as nat,
                count as int,
                spec_align(alignment_log2 as int),
            ).1 + carved_part(
                old(self).free_pages(),
                runs as nat,
                count as int,
                spec_align(alignment_log2 as int),
            ).0,
            r is Err ==> r == Err::<(), ErrNO>(ErrNO::NoMem) && final(list)@.len() == 0
                && final(self).spec_free_count() == old(self).spec_free_count() && old(self).updated(
                final(self),
                Set::empty(),
                vm_page_state::ALLOC,
            ),
            r is Ok ==> ({
                let (taken, left) = carved(
                    old(self).free_pages(),
                    runs as nat,
                    count as int,
                    spec_align(alignment_log2 as int),
                )->Some_0;
                &&& final(list)@ == taken
                &&& final(self).free_pages() == left
                &&& final(self).spec_free_count() == old(self).spec_free_count() - runs * count
                &&& taken.len() == runs * count
                &&& taken.no_duplicates()
                &&& forall|k: int|
                    0 <= k < taken.len() ==> old(self).manages(#[trigger] taken[k]) && old(
                        self,
                    ).page_at(taken[k]).spec_state() == vm_page_state::FREE
                &&& old(self).updated(final(self), taken.to_set(), vm_page_state::ALLOC)
            }),
    {
        let ghost f0 = self.free_pages();
        let ghost align = spec_align(alignment_log2 as int);
        let ghost cnt = count as int;
        let mut c: usize = 0;
        proof {
            crate::allocator::lemma_updated_same(old(self), vm_page_state::ALLOC);
            assert(list@ =~= Seq::<usize>::empty());
            assert(list@.to_set() =~= Set::<usize>::empty());
            lemma_joined_empty(carved(f0, runs as nat, cnt, align));
            assert(list@ + carved_part(f0, runs as nat, cnt, align).0 =~= carved_part(
                f0,
                runs as nat,
                cnt,
                align,
            ).0);
        }
        while c < runs
            invariant
                c <= runs,
                count > 0,
                cnt == count,
                PAGE_SHIFT < alignment_log2,
            align_fits(alignment_log2 as int),
                align == spec_align(alignment_log2 as int),
                old(self).wf(),
                self.wf(),
                list.spec_is_initialized(),
                f0 == old(self).free_pages(),
                old(self).updated(&*self, list@.to_set(), vm_page_state::ALLOC),
                list@.no_duplicates(),
                forall|k: int|
                    0 <= k < list@.len() ==> old(self).manages(#[trigger] list@[k]) && old(
                        self,
                    ).page_at(list@[k]).spec_state() == vm_page_state::FREE,
                list@.len() == c * count,
                self.spec_free_count() == old(self).spec_free_count() - c * count,
                carved(f0, runs as nat, cnt, align) == joined(
                    list@,
                    carved(self.free_pages(), (runs - c) as nat, cnt, align),
                ),
                carved_part(f0, runs as nat, cnt, align) == (
                    list@ + carved_part(self.free_pages(), (runs - c) as nat, cnt, align).0,
                    carved_part(self.free_pages(), (runs - c) as nat, cnt, align).1,
                ),
            decreases runs - c,
        {
            let ghost before = *self;
            let ghost lb = list@;
            let mut pa: paddr_t = 0;
            match self.alloc_contiguous(count, 0, alignment_log2, &mut pa, list) {
                Err(_) => {
                    let ghost mid = *self;
                    proof {
                        before.lemma_no_chunk(cnt, align);
                        old(self).lemma_taken_freeable(&before, &mid, lb);
                    }
                    let freed = self.free_list(list);
                    proof {
                        assert(freed is Ok);
                        let k = choose|k: int|
                            {
                                &&& 0 <= k <= lb.len()
                                &&& (k == lb.len() <==> freed is Ok)
                                &&& self.free_pages() == mid.free_pages() + #[trigger] lb.take(k)
                                &&& mid.updated(&*self, lb.take(k).to_set(), vm_page_state::FREE)
                            };
                        assert(k == lb.len());
                        assert(lb.take(lb.len() as int) =~= lb);
                        old(self).lemma_updated_undone(&mid, &*self, lb.to_set());
                        assert(lb + Seq::<usize>::empty() =~= lb);
                    }
                    list.init();
                    return Err(ErrNO::NoMem);
                },
                Ok(_) => {},
            }
            proof {
                old(self).lemma_run_carved(
                    &before,
                    &*self,
                    lb,
                    list@,
                    pa as int,
                    cnt,
                    align,
                    (runs - c) as nat,
                );
                lemma_joined_twice(
                    lb,
                    run_seq(pa as int, cnt),
                    carved(self.free_pages(), (runs - c - 1) as nat, cnt, align),
                );
                let more = carved_part(self.free_pages(), (runs - c - 1) as nat, cnt, align);
                assert(lb + (run_seq(pa as int, cnt) + more.0) =~= (lb + run_seq(pa as int, cnt))
                    + more.0);
                assert((c + 1) * count == c * count + count) by (nonlinear_arith);
            }
            c += 1;
        }
        Ok(())
    }

    /// The address `a` is a multiple of `align` at which a run of `count`
    /// free pages starts.
    pub open spec fn contig_ok(&self, a: int, count: int, align: int) -> bool {
        0 <= a && a % align == 0 && self.run_is_free(a, count)
    }

    /// Takes `count` physically contiguous free pages that start at a
    /// multiple of `2^alignment_log2`, the lowest such run there is, and
    /// puts them behind the tail of `list`, lowest first; where they start
    /// is stored in `pa`. A single page that needs no alignment beyond
    /// that of a page is taken from the head of the free list instead.
    pub fn alloc_contiguous(
        &mut self,
        count: usize,
        alloc_flags: u32,
        alignment_log2: usize,
        pa: &mut paddr_t,
        list: &mut List<vm_page_t>,
    ) -> (r: Result<(), ErrNO>)
        requires
            old(self).wf(),
            old(list).spec_is_initialized(),
        ensures
            final(self).wf(),
            final(list).spec_is_initialized(),
            r is Err ==> final(self).free_pages() == old(self).free_pages() && old(self).updated(
                final(self),
                Set::empty(),
                vm_page_state::ALLOC,
            ) && final(list)@ == old(list)@ && *final(pa) == *old(pa),
            count == 0 || !align_fits(alignment_log2 as int) ==> r == Err::<(), ErrNO>(
                ErrNO::InvalidArgs,
            ),
            count == 1 && alignment_log2 <= PAGE_SHIFT ==> (r is Ok <==> old(self).free_pages().len()
                > 0) && (r is Err ==> r == Err::<(), ErrNO>(ErrNO::NoMem)) && (r is Ok ==> *final(pa)
                == old(self).free_pages()[0] && final(list)@ == old(list)@.push(
                old(self).free_pages()[0],
            ) && final(self).free_pages() == old(self).free_pages().subrange(
                1,
                old(self).free_pages().len() as int,
            ) && old(self).updated(
                final(self),
                set![old(self).free_pages()[0]],
                vm_page_state::ALLOC,
            )),
            count > 0 && align_fits(alignment_log2 as int) && !(count == 1 && alignment_log2
                <= PAGE_SHIFT) ==> ({
                let align = spec_align(alignment_log2 as int);
                &&& r is Ok <==> exists|a: int| #[trigger] old(self).contig_ok(a, count as int, align)
                &&& r is Err ==> r == Err::<(), ErrNO>(ErrNO::NoMem)
                &&& r is Ok ==> {
                    &&& old(self).contig_ok(*final(pa) as int, count as int, align)
                    &&& forall|a: int|
                        a < *final(pa) ==> !#[trigger] old(self).contig_ok(a, count as int, align)
                    &&& final(list)@ == old(list)@ + Seq::new(
                        count as nat,
                        |k: int| (*final(pa) + k * PAGE_SIZE) as usize,
                    )
                    &&& final(self).free_pages() == without_range(
                        old(self).free_pages(),
                        *final(pa) as int,
                        *final(pa) + count * PAGE_SIZE,
                    )
                    &&& old(self).updated(
                        final(self),
                        Self::run_pages(*final(pa) as int, count as int),
                        vm_page_state::ALLOC,
                    )
                    &&& final(self).spec_free_count() == old(self).spec_free_count() - count
                }
            }),
    {
        proof {
            crate::allocator::lemma_updated_same(old(self), vm_page_state::ALLOC);
        }
        if count == 0 {
            return Err(ErrNO::InvalidArgs);
        }
        // If we're called with a single page, just fall through to the
        // regular allocation routine.
        if count == 1 && alignment_log2 <= PAGE_SHIFT {
            return match self.alloc_page(alloc_flags) {
                None => Err(ErrNO::NoMem),
                Some(page) => {
                    list.add_tail(page);
                    *pa = page;
                    Ok(())
                },
            };
        }
        let log2 = if alignment_log2 < PAGE_SHIFT {
            PAGE_SHIFT
        } else {
            alignment_log2
        };
        proof {
            lemma_align_pages(log2 as int);
            assert(spec_align(alignment_log2 as int) == spec_align(log2 as int));
        }
        let align = match align_of(log2) {
            None => {
                return Err(ErrNO::InvalidArgs);
            },
            Some(align) => align,
        };
        match self.find_contiguous(count, align) {
            None => Err(ErrNO::NoMem),
            Some(start) => {
                assert(start % PAGE_SIZE == 0) by {
                    lemma_mod_multiple(start as int, align as int, PAGE_SIZE as int);
                }
                self.take_run(start, count, list);
                *pa = start;
                Ok(())
            },
        }
    }

    /// Finds the lowest multiple of `align` at which a run of `count`
    /// free pages starts.
    fn find_contiguous(&self, count: usize, align: usize) -> (r: Option<paddr_t>)
        requires
            self.wf(),
            count > 0,
            align >= PAGE_SIZE,
            align % PAGE_SIZE == 0,
        ensures
            r is Some <==> exists|a: int| #[trigger] self.contig_ok(a, count as int, align as int),
            r is Some ==> self.contig_ok(r->Some_0 as int, count as int, align as int) && forall|
                a: int,
            |
                a < r->Some_0 ==> !#[trigger] self.contig_ok(a, count as int, align as int),
    {
        let n = self.arenas.len();
        let mut ai: usize = 0;
        let mut floor: usize = 0;
        while ai < n
            invariant
                self.wf(),
                count > 0,
                align >= PAGE_SIZE,
                align % PAGE_SIZE == 0,
                n == self.arenas@.len(),
                ai <= n,
                forall|a: int| #[trigger] self.contig_ok(a, count as int, align as int) ==> a >= floor,
                ai > 0 ==> floor >= self.arenas@[ai - 1].spec_base() + self.arenas@[ai
                    - 1].spec_size(),
            decreases n - ai,
        {
            assert(self.spec_arenas()[ai as int].wf());
            let base = self.arenas[ai].info.base;
            let end = base + self.arenas[ai].info.size;
            proof {
                lemma_roundup_alt(base as int, align as int);
                lemma_roundup(base as int, align as int);
                vstd::arithmetic::div_mod::lemma_mod_decreases(base as nat, align as nat);
                assert forall|a: int|
                    #[trigger] self.contig_ok(a, count as int, align as int) implies a
                    >= spec_roundup(base as int, align as int) by {
                    self.lemma_valid_from(a, count as int, align as int, ai as int, floor as int);
                    lemma_multiple_above(a, base as int, align as int);
                }
            }
            let rem = base % align;
            if rem != 0 && base - rem > usize::MAX - align {
                proof {
                    assert forall|a: int| !#[trigger] self.contig_ok(
                        a,
                        count as int,
                        align as int,
                    ) by {}
                }
                return None;
            }
            let mut c: usize = if rem == 0 {
                base
            } else {
                base - rem + align
            };
            while c < end
                invariant
                    self.wf(),
                    count > 0,
                    align >= PAGE_SIZE,
                    align % PAGE_SIZE == 0,
                    c % align == 0,
                    c >= base,
                    forall|a: int| #[trigger] self.contig_ok(a, count as int, align as int) ==> a >= c,
                decreases usize::MAX - c,
            {
                proof {
                    lemma_mod_multiple(c as int, align as int, PAGE_SIZE as int);
                }
                if self.check_run(c, count) {
                    assert(self.contig_ok(c as int, count as int, align as int));
                    return Some(c);
                }
                proof {
                    assert forall|a: int|
                        #[trigger] self.contig_ok(a, count as int, align as int) implies a >= c
                        + align by {
                        lemma_multiple_step(a, c as int, align as int);
                    }
                }
                if c > usize::MAX - align {
                    proof {
                        assert forall|a: int| !#[trigger] self.contig_ok(
                            a,
                            count as int,
                            align as int,
                        ) by {}
                    }
                    return None;
                }
                proof {
                    assert((c + align) % (align as int) == 0) by (nonlinear_arith)
                        requires
                            c % align == 0,
                            align > 0,
                    ;
                }
                c = c + align;
            }
            floor = c;
            ai += 1;
        }
        proof {
            assert forall|a: int| !#[trigger] self.contig_ok(a, count as int, align as int) by {
                if self.contig_ok(a, count as int, align as int) {
                    self.lemma_valid_from(a, count as int, align as int, n as int, floor as int);
                }
            }
        }
        None
    }

    /// A run that starts at or above the end of the arenas before position
    /// `ai` starts in the arena at `ai` or behind it.
    proof fn lemma_valid_from(&self, a: int, count: int, align: int, ai: int, floor: int)
        requires
            self.wf(),
            count > 0,
            0 <= ai <= self.spec_arenas().len(),
            self.contig_ok(a, count, align),
            a >= floor,
            ai > 0 ==> floor >= self.spec_arenas()[ai - 1].spec_base() + self.spec_arenas()[ai
                - 1].spec_size(),
        ensures
            ai < self.spec_arenas().len(),
            a >= self.spec_arenas()[ai].spec_base(),
            0 <= a,
    {
        lemma_run_first(a, count);
        assert(self.manages(a as usize));
        let j = self.arena_of(a as usize);
        assert(0 <= j < self.spec_arenas().len() && self.spec_arenas()[j].contains(a));
        if j < ai {
            if j < ai - 1 {
                assert(self.spec_arenas()[j].spec_base() + self.spec_arenas()[j].spec_size()
                    <= self.spec_arenas()[ai - 1].spec_base());
            }
            assert(self.spec_arenas()[ai - 1].wf());
        }
        if j > ai {
            assert(self.spec_arenas()[ai].spec_base() + self.spec_arenas()[ai].spec_size()
                <= self.spec_arenas()[j].spec_base());
            assert(self.spec_arenas()[ai].wf());
        }
    }
}

/// Takes the `count` pages from the page of `pa` on out of the free list
/// of `node` and puts them behind the tail of `list`: all of them, or none
/// unless every one of them is managed and free.
pub fn pmm_alloc_range(node: &mut PmmNode, pa: paddr_t, count: usize, list: &mut List<vm_page_t>)
    -> (r: Result<(), ErrNO>)
    requires
        old(node).wf(),
        old(list).spec_is_initialized(),
    ensures
        final(node).wf(),
        final(list).spec_is_initialized(),
        r is Ok <==> old(node).run_is_free(spec_rounddown(pa as int, PAGE_SIZE as int), count as int),
        r is Err ==> r == Err::<(), ErrNO>(ErrNO::NotFound) && final(node).free_pages() == old(node).free_pages() && old(node).updated(final(node), Set::empty(), vm_page_state::ALLOC)
            && final(list)@ == old(list)@,
        r is Ok ==> ({
            let first = spec_rounddown(pa as int, PAGE_SIZE as int);
            &&& final(list)@ == old(list)@ + Seq::new(
                count as nat,
                |k: int| (first + k * PAGE_SIZE) as usize,
            )
            &&& final(node).free_pages() == without_range(
                old(node).free_pages(),
                first,
                first + count * PAGE_SIZE,
            )
            &&& old(node).updated(
                final(node),
                PmmNode::run_pages(first, count as int),
                vm_page_state::ALLOC,
            )
        }),
{
    node.alloc_range(pa, count, list)
}

/// Takes the page at the head of the free list of `node`, if there is
/// one.
pub fn pmm_alloc_page(node: &mut PmmNode, flags: u32) -> (r: Option<paddr_t>)
    requires
        old(node).wf(),
    ensures
        final(node).wf(),
        old(node).free_pages().len() == 0 ==> r is None && old(node).updated(
            final(node),
            Set::empty(),
            vm_page_state::ALLOC,
        ) && final(node).free_pages() == old(node).free_pages(),
        old(node).free_pages().len() > 0 ==> r == Some(old(node).free_pages()[0]) && old(node).updated(final(node), set![old(node).free_pages()[0]], vm_page_state::ALLOC) && final(node).free_pages() == old(node).free_pages().subrange(1, old(node).free_pages().len() as int),
{
    node.alloc_page(flags)
}

/// Takes `count` pages from the head of the free list of `node` and puts
/// them behind the tail of `list`, or none at all when fewer are free.
pub fn pmm_alloc_pages(
    node: &mut PmmNode,
    count: usize,
    alloc_flags: u32,
    list: &mut List<vm_page_t>,
) -> (r: Result<(), ErrNO>)
    requires
        old(node).wf(),
        old(list).spec_is_initialized(),
    ensures
        final(node).wf(),
        final(list).spec_is_initialized(),
        r is Err <==> count > old(node).spec_free_count(),
        r is Err ==> r == Err::<(), ErrNO>(ErrNO::NoMem) && final(node).free_pages() == old(node).free_pages() && old(node).updated(final(node), Set::empty(), vm_page_state::ALLOC)
            && final(list)@ == old(list)@,
        r is Ok ==> final(list)@ == old(list)@ + old(node).free_pages().subrange(0, count as int)
            && final(node).free_pages() == old(node).free_pages().subrange(
            count as int,
            old(node).free_pages().len() as int,
        ) && old(node).updated(
            final(node),
            old(node).free_pages().subrange(0, count as int).to_set(),
            vm_page_state::ALLOC,
        ),
{
    node.alloc_pages(count, alloc_flags, list)
}

/// Registers the arena that `info` describes with `node`.
pub fn pmm_add_arena(node: &mut PmmNode, info: ArenaInfo, res: &Vec<BootReserveRange>) -> (r: Result<
    (),
    ErrNO,
>)
    requires
        old(node).wf(),
    ensures
        final(node).wf(),
        r == (match old(node).add_arena_error(info, res@) {
            Some(e) => Err::<(), ErrNO>(e),
            None => Ok::<(), ErrNO>(()),
        }),
        r is Err ==> final(node).spec_arenas() == old(node).spec_arenas() && final(node).free_pages() == old(node).free_pages(),
        r is Ok ==> ({
            let base = info.base as int;
            let size = info.size as int;
            let n = size / (PAGE_SIZE as int);
            let s = array_start_index(res@, base, size);
            let e = array_end_index(res@, base, size);
            &&& final(node).free_pages() == old(node).free_pages() + free_addrs(base, s, e, n)
            &&& final(node).spec_free_count() == old(node).spec_free_count() + n - (e - s)
            &&& forall|i: int|
                0 <= i < n ==> final(node).page_at((base + i * PAGE_SIZE) as usize)
                    == #[trigger] arena_page(base, s, e, i)
        }),
{
    node.add_arena(info, res)
}

/// The descriptor of the page that holds `pa`, if `node` has one.
pub fn paddr_to_vm_page(node: &PmmNode, pa: paddr_t) -> (r: Option<&vm_page>)
    requires
        node.ranges_wf(),
    ensures
        r is Some <==> exists|a: int|
            0 <= a < node.spec_arenas().len() && (#[trigger] node.spec_arenas()[a]).contains(
                pa as int,
            ),
        r is Some ==> *r->Some_0 == node.page_at(pa),
{
    node.paddr_to_page(pa)
}

/// Returns the pages of `list` to the free list of `node`, one after the
/// other, and stops at the first that cannot be freed.
pub fn pmm_free(node: &mut PmmNode, list: &List<vm_page_t>) -> (r: Result<(), ErrNO>)
    requires
        old(node).wf(),
    ensures
        final(node).wf(),
        r is Ok <==> old(node).freeable(list@, list@.len() as int),
        r is Ok ==> final(node).free_pages() == old(node).free_pages() + list@ && old(node).updated(
            final(node),
            list@.to_set(),
            vm_page_state::FREE,
        ),
        exists|k: int|
            {
                &&& 0 <= k <= list@.len()
                &&& old(node).freeable(list@, k)
                &&& (k == list@.len() <==> r is Ok)
                &&& k < list@.len() ==> !old(node).freeable(list@, k + 1) && r == Err::<(), ErrNO>(
                    if !old(node).manages(list@[k]) {
                        ErrNO::NotFound
                    } else {
                        ErrNO::BadState
                    },
                )
                &&& final(node).free_pages() == old(node).free_pages() + #[trigger] list@.take(k)
                &&& old(node).updated(final(node), list@.take(k).to_set(), vm_page_state::FREE)
            },
{
    let r = node.free_list(list);
    proof {
        assert(list@.take(list@.len() as int) =~= list@);
        if r is Ok {
            let k = choose|k: int|
                 {
                    &&& 0 <= k <= list@.len()
                    &&& (k == list@.len() <==> r is Ok)
                    &&& node.free_pages() == old(node).free_pages() + #[trigger] list@.take(k)
                    &&& old(node).updated(&*node, list@.take(k).to_set(), vm_page_state::FREE)
                };
            assert(k == list@.len());
        }
    }
    r
}

/// The page queues of `node`.
pub fn pmm_page_queues(node: &PmmNode) -> (r: &PageQueues)
    ensures
        *r == node.spec_page_queues(),
{
    node.page_queues()
}

/// Takes `count` physically contiguous free pages of `node` that start at
/// a multiple of `2^alignment_log2`: see `PmmNode::alloc_contiguous`.
pub fn pmm_alloc_contiguous(
    node: &mut PmmNode,
    count: usize,
    alloc_flags: u32,
    alignment_log2: usize,
    pa: &mut paddr_t,
    list: &mut List<vm_page_t>,
) -> (r: Result<(), ErrNO>)
    requires
        old(node).wf(),
        old(list).spec_is_initialized(),
    ensures
        final(node).wf(),
        final(list).spec_is_initialized(),
        r is Err ==> final(node).free_pages() == old(node).free_pages() && old(node).updated(
            final(node),
            Set::empty(),
            vm_page_state::ALLOC,
        ) && final(list)@ == old(list)@ && *final(pa) == *old(pa),
        count == 0 || !align_fits(alignment_log2 as int) ==> r == Err::<(), ErrNO>(
            ErrNO::InvalidArgs,
        ),
        count == 1 && alignment_log2 <= PAGE_SHIFT ==> (r is Ok <==> old(node).free_pages().len()
            > 0) && (r is Err ==> r == Err::<(), ErrNO>(ErrNO::NoMem)) && (r is Ok ==> *final(pa)
            == old(node).free_pages()[0] && final(list)@ == old(list)@.push(
            old(node).free_pages()[0],
        ) && final(node).free_pages() == old(node).free_pages().subrange(
            1,
            old(node).free_pages().len() as int,
        ) && old(node).updated(
            final(node),
            set![old(node).free_pages()[0]],
            vm_page_state::ALLOC,
        )),
        count > 0 && align_fits(alignment_log2 as int) && !(count == 1 && alignment_log2
            <= PAGE_SHIFT) ==> ({
            let align = spec_align(alignment_log2 as int);
            &&& r is Ok <==> exists|a: int| #[trigger] old(node).contig_ok(a, count as int, align)
            &&& r is Err ==> r == Err::<(), ErrNO>(ErrNO::NoMem)
            &&& r is Ok ==> {
                &&& old(node).contig_ok(*final(pa) as int, count as int, align)
                &&& forall|a: int|
                    a < *final(pa) ==> !#[trigger] old(node).contig_ok(a, count as int, align)
                &&& final(list)@ == old(list)@ + Seq::new(
                    count as nat,
                    |k: int| (*final(pa) + k * PAGE_SIZE) as usize,
                )
                &&& final(node).free_pages() == without_range(
                    old(node).free_pages(),
                    *final(pa) as int,
                    *final(pa) + count * PAGE_SIZE,
                )
                &&& old(node).updated(
                    final(node),
                    PmmNode::run_pages(*final(pa) as int, count as int),
                    vm_page_state::ALLOC,
                )
                &&& final(node).spec_free_count() == old(node).spec_free_count() - count
            }
        }),
{
    node.alloc_contiguous(count, alloc_flags, alignment_log2, pa, list)
}

} // verus!
