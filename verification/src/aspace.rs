//! An address space: which virtual pages are mapped, to which physical
//! pages and with which protection.
use vstd::prelude::*;
use std::collections::HashMap;
use crate::align::{is_page_aligned, rounddown, spec_rounddown};
use crate::arch::mmu::PAGE_KERNEL;
use crate::defines::PAGE_SIZE;
use crate::errors::ErrNO;
use crate::types::{paddr_t, vaddr_t};
use crate::vm::vm::{
    mmu_prot_from_flags, spec_mmu_prot_from_flags, ARCH_MMU_FLAG_PERM_EXECUTE,
    ARCH_MMU_FLAG_PERM_READ, MMU_PROT_FLAGS_MASK,
};

verus! {

broadcast use vstd::std_specs::hash::group_hash_axioms;

/// What an address space is for.
#[derive(Clone, Copy, Debug)]
pub enum VmAspaceType {
    User,
    Kernel,
    LowKernel,
    GuestPhysical,
}

/// What `map` does when a page of the range is mapped already.
#[derive(Clone, Copy, Debug)]
pub enum ExistingEntryAction {
    /// Leave the page as it is and go on.
    Skip,
    /// Stop and fail.
    Error,
}

/// The mappings of an address space, by page-aligned virtual address: the
/// physical address of the page and its protection.
pub type Mappings = Map<usize, (usize, usize)>;

/// The address `va` is one of the `count` page starts from `vaddr` on.
pub open spec fn in_run(vaddr: int, count: int, va: int) -> bool {
    vaddr <= va < vaddr + count * PAGE_SIZE && (va - vaddr) % (PAGE_SIZE as int) == 0
}

/// The number of pages at the start of the run of `count` pages from
/// `vaddr` on that are not mapped in `m`: the position of the first one
/// that is, or `count`.
pub open spec fn first_conflict(m: Mappings, vaddr: int, count: int) -> int
    decreases count,
{
    if count <= 0 {
        0
    } else {
        let c = first_conflict(m, vaddr, count - 1);
        if c < count - 1 {
            c
        } else if m.contains_key((vaddr + (count - 1) * PAGE_SIZE) as usize) {
            count - 1
        } else {
            count
        }
    }
}

/// The mappings after the first `k` pages from `vaddr` on were mapped to
/// the physical pages `phys`, each unless it was mapped before.
pub open spec fn mapped(m: Mappings, vaddr: int, phys: Seq<usize>, k: int) -> Mappings {
    Map::new(
        |va: usize| m.contains_key(va) || in_run(vaddr, k, va as int),
        |va: usize|
            if m.contains_key(va) {
                m[va]
            } else {
                (phys[(va - vaddr) / (PAGE_SIZE as int)], PAGE_KERNEL)
            },
    )
}

/// The mappings without those of the `count` pages from `vaddr` on.
pub open spec fn unmapped(m: Mappings, vaddr: int, count: int) -> Mappings {
    Map::new(|va: usize| m.contains_key(va) && !in_run(vaddr, count, va as int), |va: usize| m[va])
}

/// The mappings with the protection of the mapped ones among the `count`
/// pages from `vaddr` on replaced by `prot`.
pub open spec fn protected(m: Mappings, vaddr: int, count: int, prot: usize) -> Mappings {
    Map::new(
        |va: usize| m.contains_key(va),
        |va: usize|
            if in_run(vaddr, count, va as int) {
                (m[va].0, prot)
            } else {
                m[va]
            },
    )
}

/// The first conflict is where a page is mapped and none before it is.
pub proof fn lemma_first_conflict(m: Mappings, vaddr: int, count: int, c: int)
    requires
        0 <= c <= count,
        forall|i: int| 0 <= i < c ==> !m.contains_key(#[trigger] ((vaddr + i * PAGE_SIZE) as usize)),
        c < count ==> m.contains_key((vaddr + c * PAGE_SIZE) as usize),
    ensures
        first_conflict(m, vaddr, count) == c,
    decreases count,
{
    if count > 0 {
        if c < count {
            lemma_first_conflict(m, vaddr, count - 1, c);
        } else {
            lemma_first_conflict(m, vaddr, count - 1, count - 1);
            assert(!m.contains_key((vaddr + (count - 1) * PAGE_SIZE) as usize));
        }
    }
}

/// An address space of the kernel or of a user process.
pub struct VmAspace {
    id: usize,
    as_type: VmAspaceType,
    base: vaddr_t,
    size: usize,
    table: HashMap<usize, (usize, usize)>,
}

impl VmAspace {
    /// First address of the address space.
    pub closed spec fn spec_base(&self) -> vaddr_t {
        self.base
    }

    /// Bytes in the address space.
    pub closed spec fn spec_size(&self) -> usize {
        self.size
    }

    /// The number that identifies the address space.
    pub closed spec fn spec_id(&self) -> usize {
        self.id
    }

    /// The mappings of the address space.
    pub closed spec fn mappings(&self) -> Mappings {
        self.table@
    }

    /// The address `vaddr` lies in the address space.
    pub open spec fn spec_is_valid_vaddr(&self, vaddr: vaddr_t) -> bool {
        self.spec_size() > 0 && vaddr >= self.spec_base() && vaddr - self.spec_base()
            <= self.spec_size() - 1
    }

    /// The `count` pages from `vaddr` on lie in the address space.
    pub open spec fn range_valid(&self, vaddr: vaddr_t, count: usize) -> bool {
        self.spec_is_valid_vaddr(vaddr) && (count > 0 ==> (count - 1) * PAGE_SIZE + (vaddr
            - self.spec_base()) <= self.spec_size() - 1)
    }

    /// Every mapping is of a page-aligned address inside the address
    /// space.
    pub open spec fn wf(&self) -> bool {
        &&& self.spec_size() > 0 ==> self.spec_base() + (self.spec_size() - 1) <= usize::MAX
        &&& forall|va: usize| #[trigger]
            self.mappings().contains_key(va) ==> va % PAGE_SIZE == 0 && self.spec_is_valid_vaddr(va)
    }

    /// An address space `[base, base + size)` without mappings.
    pub fn new(id: usize, as_type: VmAspaceType, base: vaddr_t, size: usize) -> (r: Self)
        requires
            size > 0 ==> base + (size - 1) <= usize::MAX,
        ensures
            r.wf(),
            r.spec_id() == id,
            r.spec_base() == base,
            r.spec_size() == size,
            r.mappings() == Map::<usize, (usize, usize)>::empty(),
    {
        Self { id, as_type, base, size, table: HashMap::new() }
    }

    /// Makes this the address space `[base, base + size)` without
    /// mappings.
    pub fn init(&mut self, id: usize, as_type: VmAspaceType, base: vaddr_t, size: usize)
        requires
            size > 0 ==> base + (size - 1) <= usize::MAX,
        ensures
            final(self).wf(),
            final(self).spec_id() == id,
            final(self).spec_base() == base,
            final(self).spec_size() == size,
            final(self).mappings() == Map::<usize, (usize, usize)>::empty(),
    {
        self.id = id;
        self.as_type = as_type;
        self.base = base;
        self.size = size;
        self.table = HashMap::new();
    }

    /// Tells whether `vaddr` lies in the address space.
    pub fn is_valid_vaddr(&self, vaddr: vaddr_t) -> (r: bool)
        ensures
            r == self.spec_is_valid_vaddr(vaddr),
    {
        self.size > 0 && vaddr >= self.base && vaddr - self.base <= self.size - 1
    }

    /// Tells whether the `count` pages from `vaddr` on lie in the address
    /// space.
    pub fn is_valid_range(&self, vaddr: vaddr_t, count: usize) -> (r: bool)
        requires
            self.wf(),
        ensures
            r == self.range_valid(vaddr, count),
            r ==> vaddr + count * PAGE_SIZE <= usize::MAX + PAGE_SIZE,
    {
        if !self.is_valid_vaddr(vaddr) {
            return false;
        }
        if count == 0 {
            return true;
        }
        let room = (self.size - 1) - (vaddr - self.base);
        count - 1 <= room / PAGE_SIZE
    }

    /// Why `map` refuses its arguments, if it does.
    pub open spec fn map_error(
        &self,
        vaddr: vaddr_t,
        phys: Seq<paddr_t>,
        count: usize,
        mmu_flags: usize,
    ) -> Option<ErrNO> {
        if !self.spec_is_valid_vaddr(vaddr) {
            Some(ErrNO::OutOfRange)
        } else if exists|i: int| 0 <= i < count && #[trigger] phys[i] % PAGE_SIZE != 0 {
            Some(ErrNO::InvalidArgs)
        } else if mmu_flags & ARCH_MMU_FLAG_PERM_READ == 0 {
            Some(ErrNO::InvalidArgs)
        } else if vaddr % PAGE_SIZE != 0 {
            Some(ErrNO::InvalidArgs)
        } else if !self.range_valid(vaddr, count) {
            Some(ErrNO::OutOfRange)
        } else {
            None
        }
    }

    /// Maps the `count` pages from `vaddr` on to the first `count`
    /// physical pages of `phys`, with the protection of kernel data, and
    /// returns how many pages the range has. A page that is mapped
    /// already is left as it is; with the action `Error` the first such
    /// page ends the call with `AlreadyExists`, the pages before it
    /// staying mapped.
    pub fn map(
        &mut self,
        vaddr: vaddr_t,
        phys: &[paddr_t],
        count: usize,
        mmu_flags: usize,
        action: ExistingEntryAction,
    ) -> (r: Result<usize, ErrNO>)
        requires
            old(self).wf(),
            count <= phys@.len(),
        ensures
            final(self).wf(),
            final(self).spec_base() == old(self).spec_base(),
            final(self).spec_size() == old(self).spec_size(),
            final(self).spec_id() == old(self).spec_id(),
            old(self).map_error(vaddr, phys@, count, mmu_flags) is Some ==> r == Err::<usize, ErrNO>(
                old(self).map_error(vaddr, phys@, count, mmu_flags)->Some_0,
            ) && final(self).mappings() == old(self).mappings(),
            old(self).map_error(vaddr, phys@, count, mmu_flags) is None ==> ({
                let k = if action is Error {
                    first_conflict(old(self).mappings(), vaddr as int, count as int)
                } else {
                    count as int
                };
                &&& final(self).mappings() == mapped(old(self).mappings(), vaddr as int, phys@, k)
                &&& r == (if k == count {
                    Ok::<usize, ErrNO>(count)
                } else {
                    Err::<usize, ErrNO>(ErrNO::AlreadyExists)
                })
            }),
    {
        if !self.is_valid_vaddr(vaddr) {
            return Err(ErrNO::OutOfRange);
        }
        let mut i: usize = 0;
        while i < count
            invariant
                i <= count <= phys@.len(),
                *self == *old(self),
                self.wf(),
                self.spec_is_valid_vaddr(vaddr),
                forall|j: int| 0 <= j < i ==> #[trigger] phys@[j] % PAGE_SIZE == 0,
            decreases count - i,
        {
            if !is_page_aligned(phys[i]) {
                return Err(ErrNO::InvalidArgs);
            }
            i += 1;
        }
        if (mmu_flags & ARCH_MMU_FLAG_PERM_READ) == 0 {
            return Err(ErrNO::InvalidArgs);
        }
        if !is_page_aligned(vaddr) {
            return Err(ErrNO::InvalidArgs);
        }
        if !self.is_valid_range(vaddr, count) {
            return Err(ErrNO::OutOfRange);
        }
        let on_error = match action {
            ExistingEntryAction::Error => true,
            ExistingEntryAction::Skip => false,
        };
        let ghost om = self.mappings();
        let prot = PAGE_KERNEL;
        let mut idx: usize = 0;
        proof {
            assert(self.mappings() =~= mapped(om, vaddr as int, phys@, 0));
        }
        while idx < count
            invariant
                idx <= count <= phys@.len(),
                vaddr % PAGE_SIZE == 0,
                old(self).wf(),
                old(self).range_valid(vaddr, count),
                old(self).map_error(vaddr, phys@, count, mmu_flags) is None,
                om == old(self).mappings(),
                self.base == old(self).base,
                self.size == old(self).size,
                self.id == old(self).id,
                on_error == (action is Error),
                prot == PAGE_KERNEL,
                self.mappings() == mapped(om, vaddr as int, phys@, idx as int),
                on_error ==> forall|j: int|
                    0 <= j < idx ==> !om.contains_key(#[trigger] ((vaddr + j * PAGE_SIZE) as usize)),
            decreases count - idx,
        {
            let v = vaddr + idx * PAGE_SIZE;
            assert(!in_run(vaddr as int, idx as int, v as int));
            assert(in_run(vaddr as int, idx + 1, v as int)) by {
                assert((idx * PAGE_SIZE) % (PAGE_SIZE as int) == 0) by (nonlinear_arith);
            }
            if self.table.contains_key(&v) {
                if on_error {
                    proof {
                        lemma_first_conflict(om, vaddr as int, count as int, idx as int);
                        self.lemma_mapped_wf(old(self), vaddr, phys@, count, idx as int);
                    }
                    return Err(ErrNO::AlreadyExists);
                }
                proof {
                    assert(mapped(om, vaddr as int, phys@, idx as int) =~= mapped(
                        om,
                        vaddr as int,
                        phys@,
                        idx + 1,
                    )) by {
                        assert forall|va: usize| in_run(vaddr as int, idx + 1, va as int) implies (
                        in_run(vaddr as int, idx as int, va as int) || va == v) by {
                            lemma_in_run_step(vaddr as int, idx as int, va as int);
                        }
                    }
                }
            } else {
                self.table.insert(v, (phys[idx], prot));
                proof {
                    assert(self.mappings() =~= mapped(om, vaddr as int, phys@, idx + 1)) by {
                        assert forall|va: usize| in_run(vaddr as int, idx + 1, va as int) <==> (
                        in_run(vaddr as int, idx as int, va as int) || va == v) by {
                            lemma_in_run_step(vaddr as int, idx as int, va as int);
                        }
                        assert((v - vaddr) / (PAGE_SIZE as int) == idx) by (nonlinear_arith)
                            requires
                                v == vaddr + idx * PAGE_SIZE,
                        ;
                    }
                }
            }
            idx += 1;
        }
        proof {
            if on_error {
                lemma_first_conflict(om, vaddr as int, count as int, count as int);
            }
            self.lemma_mapped_wf(old(self), vaddr, phys@, count, count as int);
        }
        Ok(count)
    }

    /// Mapping pages of a valid, aligned range keeps every mapping aligned
    /// and inside the address space.
    proof fn lemma_mapped_wf(&self, old: &VmAspace, vaddr: vaddr_t, phys: Seq<usize>, count: usize, k: int)
        requires
            old.wf(),
            0 <= k <= count,
            vaddr % PAGE_SIZE == 0,
            old.range_valid(vaddr, count),
            self.spec_base() == old.spec_base(),
            self.spec_size() == old.spec_size(),
            self.mappings() == mapped(old.mappings(), vaddr as int, phys, k),
        ensures
            self.wf(),
    {
        assert forall|va: usize| #[trigger] self.mappings().contains_key(va) implies va % PAGE_SIZE
            == 0 && self.spec_is_valid_vaddr(va) by {
            if !old.mappings().contains_key(va) {
                assert(in_run(vaddr as int, k, va as int));
                assert(k * PAGE_SIZE <= count * PAGE_SIZE) by (nonlinear_arith)
                    requires
                        0 <= k <= count,
                ;
            }
        }
    }

    /// Removes the mappings of the `count` pages from `vaddr` on, and
    /// returns how many pages the range has. Pages of the range that are
    /// not mapped are passed over.
    pub fn unmap(&mut self, vaddr: vaddr_t, count: usize, enlarge: bool) -> (r: Result<usize, ErrNO>)
        requires
            old(self).wf(),
        ensures
            final(self).wf(),
            final(self).spec_base() == old(self).spec_base(),
            final(self).spec_size() == old(self).spec_size(),
            final(self).spec_id() == old(self).spec_id(),
            r == (if !old(self).range_valid(vaddr, count) {
                Err::<usize, ErrNO>(ErrNO::OutOfRange)
            } else if vaddr % PAGE_SIZE != 0 {
                Err::<usize, ErrNO>(ErrNO::InvalidArgs)
            } else {
                Ok::<usize, ErrNO>(count)
            }),
            r is Err ==> final(self).mappings() == old(self).mappings(),
            r is Ok ==> final(self).mappings() == unmapped(
                old(self).mappings(),
                vaddr as int,
                count as int,
            ),
    {
        if !self.is_valid_range(vaddr, count) {
            return Err(ErrNO::OutOfRange);
        }
        if !is_page_aligned(vaddr) {
            return Err(ErrNO::InvalidArgs);
        }
        let ghost om = self.mappings();
        let mut idx: usize = 0;
        proof {
            assert(self.mappings() =~= unmapped(om, vaddr as int, 0));
        }
        while idx < count
            invariant
                idx <= count,
                old(self).wf(),
                old(self).range_valid(vaddr, count),
                self.base == old(self).base,
                self.size == old(self).size,
                self.id == old(self).id,
                self.mappings() == unmapped(om, vaddr as int, idx as int),
            decreases count - idx,
        {
            let v = vaddr + idx * PAGE_SIZE;
            self.table.remove(&v);
            proof {
                assert(self.mappings() =~= unmapped(om, vaddr as int, idx + 1)) by {
                    assert forall|va: usize| in_run(vaddr as int, idx + 1, va as int) <==> (in_run(
                        vaddr as int,
                        idx as int,
                        va as int,
                    ) || va == v) by {
                        lemma_in_run_step(vaddr as int, idx as int, va as int);
                    }
                }
            }
            idx += 1;
        }
        Ok(count)
    }

    /// Why `protect` refuses its arguments, if it does.
    pub open spec fn protect_error(&self, vaddr: vaddr_t, count: usize, mmu_flags: usize) -> Option<
        ErrNO,
    > {
        if !self.spec_is_valid_vaddr(vaddr) || vaddr % PAGE_SIZE != 0 || mmu_flags
            & ARCH_MMU_FLAG_PERM_READ == 0 || !self.range_valid(vaddr, count) || mmu_flags
            & !MMU_PROT_FLAGS_MASK & !ARCH_MMU_FLAG_PERM_EXECUTE != 0 {
            Some(ErrNO::InvalidArgs)
        } else if mmu_flags & ARCH_MMU_FLAG_PERM_EXECUTE != 0 {
            Some(ErrNO::NotSupported)
        } else {
            None
        }
    }

    /// Gives the mapped pages among the `count` pages from `vaddr` on the
    /// protection that the flags `mmu_flags` ask for, which must include
    /// reading. Making pages executable is not supported.
    pub fn protect(&mut self, vaddr: vaddr_t, count: usize, mmu_flags: usize) -> (r: Result<
        (),
        ErrNO,
    >)
        requires
            old(self).wf(),
        ensures
            final(self).wf(),
            final(self).spec_base() == old(self).spec_base(),
            final(self).spec_size() == old(self).spec_size(),
            final(self).spec_id() == old(self).spec_id(),
            r == (match old(self).protect_error(vaddr, count, mmu_flags) {
                Some(e) => Err::<(), ErrNO>(e),
                None => Ok::<(), ErrNO>(()),
            }),
            r is Err ==> final(self).mappings() == old(self).mappings(),
            r is Ok ==> final(self).mappings() == protected(
                old(self).mappings(),
                vaddr as int,
                count as int,
                spec_mmu_prot_from_flags(mmu_flags),
            ),
    {
        if !self.is_valid_vaddr(vaddr) {
            return Err(ErrNO::InvalidArgs);
        }
        if !is_page_aligned(vaddr) {
            return Err(ErrNO::InvalidArgs);
        }
        if (mmu_flags & ARCH_MMU_FLAG_PERM_READ) == 0 {
            return Err(ErrNO::InvalidArgs);
        }
        if !self.is_valid_range(vaddr, count) {
            return Err(ErrNO::InvalidArgs);
        }
        if (mmu_flags & !MMU_PROT_FLAGS_MASK & !ARCH_MMU_FLAG_PERM_EXECUTE) != 0 {
            return Err(ErrNO::InvalidArgs);
        }
        if (mmu_flags & ARCH_MMU_FLAG_PERM_EXECUTE) != 0 {
            return Err(ErrNO::NotSupported);
        }
        proof {
            lemma_flags_in_mask(mmu_flags);
        }
        let prot = mmu_prot_from_flags(mmu_flags);
        let ghost om = self.mappings();
        let mut idx: usize = 0;
        proof {
            assert(self.mappings() =~= protected(om, vaddr as int, 0, prot));
        }
        while idx < count
            invariant
                idx <= count,
                old(self).wf(),
                old(self).range_valid(vaddr, count),
                om == old(self).mappings(),
                self.base == old(self).base,
                self.size == old(self).size,
                self.id == old(self).id,
                self.mappings() == protected(om, vaddr as int, idx as int, prot),
            decreases count - idx,
        {
            let v = vaddr + idx * PAGE_SIZE;
            assert(!in_run(vaddr as int, idx as int, v as int));
            let entry = match self.table.get(&v) {
                Some(entry) => Some(entry.0),
                None => None,
            };
            match entry {
                Some(pa) => {
                    self.table.insert(v, (pa, prot));
                },
                None => {},
            }
            proof {
                assert(self.mappings() =~= protected(om, vaddr as int, idx + 1, prot)) by {
                    assert forall|va: usize| in_run(vaddr as int, idx + 1, va as int) <==> (in_run(
                        vaddr as int,
                        idx as int,
                        va as int,
                    ) || va == v) by {
                        lemma_in_run_step(vaddr as int, idx as int, va as int);
                    }
                }
            }
            idx += 1;
        }
        Ok(())
    }

    /// Looks up the page that holds `va`: the physical address of the
    /// page it is mapped to, and its protection.
    pub fn query(&self, va: vaddr_t) -> (r: Result<(paddr_t, usize), ErrNO>)
        requires
            self.wf(),
        ensures
            r == (if !self.spec_is_valid_vaddr(va) {
                Err::<(paddr_t, usize), ErrNO>(ErrNO::OutOfRange)
            } else if !self.mappings().contains_key(
                spec_rounddown(va as int, PAGE_SIZE as int) as usize,
            ) {
                Err::<(paddr_t, usize), ErrNO>(ErrNO::NotFound)
            } else {
                Ok::<(paddr_t, usize), ErrNO>(
                    self.mappings()[spec_rounddown(va as int, PAGE_SIZE as int) as usize],
                )
            }),
    {
        if !self.is_valid_vaddr(va) {
            return Err(ErrNO::OutOfRange);
        }
        let page = rounddown(va, PAGE_SIZE);
        match self.table.get(&page) {
            None => Err(ErrNO::NotFound),
            Some(entry) => Ok(*entry),
        }
    }
}

/// Flags without the one for executing and without any that is unknown
/// are flags that can be translated.
proof fn lemma_flags_in_mask(mmu_flags: usize)
    requires
        mmu_flags & !MMU_PROT_FLAGS_MASK & !ARCH_MMU_FLAG_PERM_EXECUTE == 0,
        mmu_flags & ARCH_MMU_FLAG_PERM_EXECUTE == 0,
    ensures
        mmu_flags & !MMU_PROT_FLAGS_MASK == 0,
{
    assert(mmu_flags & !26usize & !32usize == 0 && mmu_flags & 32usize == 0 ==> mmu_flags & !26usize
        == 0) by (bit_vector);
}

/// A run of one page more holds the next page start besides those it
/// held.
pub proof fn lemma_in_run_step(vaddr: int, k: int, va: int)
    requires
        0 <= k,
    ensures
        in_run(vaddr, k + 1, va) <==> (in_run(vaddr, k, va) || va == vaddr + k * PAGE_SIZE),
{
    if va == vaddr + k * PAGE_SIZE {
        assert((k * PAGE_SIZE) % (PAGE_SIZE as int) == 0) by (nonlinear_arith);
    }
    if in_run(vaddr, k + 1, va) && va != vaddr + k * PAGE_SIZE {
        let d = va - vaddr;
        assert(d % (PAGE_SIZE as int) == 0);
        assert(d < (k + 1) * PAGE_SIZE);
        assert(d != k * PAGE_SIZE);
    }
}

} // verus!
