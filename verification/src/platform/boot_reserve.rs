//! The boot reservation table: physical ranges that must never be handed
//! out, kept sorted and disjoint.
use vstd::prelude::*;
use crate::errors::ErrNO;
use crate::klib::range::{intersects, spec_intersects};
use crate::types::paddr_t;

verus! {

/// The table holds fewer ranges than this.
pub const MAX_RESERVES: usize = 64;

/// A reserved physical range `[pa, pa + len)`.
#[derive(Clone, Copy, Debug)]
pub struct BootReserveRange {
    pub pa: paddr_t,
    pub len: usize,
}

/// The range `[pa, pa + len)` overlaps some range of the table.
pub open spec fn hits_reserve(res: Seq<BootReserveRange>, pa: int, len: int) -> bool {
    exists|k: int|
        0 <= k < res.len() && spec_intersects(
            (#[trigger] res[k]).pa as int,
            res[k].len as int,
            pa,
            len,
        )
}

/// The table is sorted by address, its ranges are nonempty and disjoint and
/// end inside the address space, and it is not full.
pub open spec fn reserves_wf(res: Seq<BootReserveRange>) -> bool {
    &&& res.len() < MAX_RESERVES - 1
    &&& forall|k: int|
        0 <= k < res.len() ==> (#[trigger] res[k]).len > 0 && res[k].pa + res[k].len - 1
            <= usize::MAX
    &&& forall|i: int, j: int|
        0 <= i < j < res.len() ==> (#[trigger] res[i]).pa + res[i].len <= (#[trigger] res[j]).pa
}

/// Where `boot_reserve_add_range` puts a range that ends at `end`: behind
/// every range that starts at or below `end`.
pub open spec fn insert_position(res: Seq<BootReserveRange>, end: int) -> int
    decreases res.len(),
{
    if res.len() == 0 {
        0
    } else if res.last().pa > end {
        insert_position(res.drop_last(), end)
    } else {
        res.len() as int
    }
}

/// In a sorted table the insertion point is the first range that starts
/// above `end`.
proof fn lemma_insert_position(res: Seq<BootReserveRange>, end: int, i: int)
    requires
        0 <= i <= res.len(),
        forall|a: int, b: int| 0 <= a < b < res.len() ==> (#[trigger] res[a]).pa <= (
        #[trigger] res[b]).pa,
        forall|k: int| 0 <= k < i ==> (#[trigger] res[k]).pa <= end,
        i < res.len() ==> res[i].pa > end,
    ensures
        insert_position(res, end) == i,
    decreases res.len(),
{
    if res.len() == 0 {
    } else if res.last().pa > end {
        assert(i < res.len());
        lemma_insert_position(res.drop_last(), end, i);
    } else {
        if i < res.len() {
            assert(res[i].pa <= res[res.len() - 1].pa);
        }
    }
}

/// Tells whether the range `[pa, pa + len)` can join the table: the
/// table is not full, and the range is not empty, ends inside the address
/// space and overlaps no range of the table.
pub fn boot_reserve_can_add(res: &Vec<BootReserveRange>, pa: paddr_t, len: usize) -> (r: bool)
    ensures
        r == (res@.len() < MAX_RESERVES - 1 && len > 0 && pa + len - 1 <= usize::MAX
            && !hits_reserve(res@, pa as int, len as int)),
{
    if res.len() >= MAX_RESERVES - 1 || len == 0 || len - 1 > usize::MAX - pa {
        return false;
    }
    let mut i: usize = 0;
    while i < res.len()
        invariant
            i <= res@.len(),
            forall|k: int|
                0 <= k < i ==> !spec_intersects(
                    (#[trigger] res@[k]).pa as int,
                    res@[k].len as int,
                    pa as int,
                    len as int,
                ),
        decreases res@.len() - i,
    {
        if intersects(res[i].pa, res[i].len, pa, len) {
            return false;
        }
        i += 1;
    }
    true
}

/// Starts the table with the range the kernel image occupies.
pub fn boot_reserve_init(res: &mut Vec<BootReserveRange>, pa: paddr_t, len: usize) -> (r: Result<
    (),
    ErrNO,
>)
    requires
        reserves_wf(old(res)@),
        len > 0,
        pa + len - 1 <= usize::MAX,
        !hits_reserve(old(res)@, pa as int, len as int),
    ensures
        r is Ok,
        final(res)@ == old(res)@.insert(
            insert_position(old(res)@, pa + len - 1),
            BootReserveRange { pa, len },
        ),
        final(res)@.len() == old(res)@.len() + 1,
        final(res)@.len() < MAX_RESERVES - 1 ==> reserves_wf(final(res)@),
{
    boot_reserve_add_range(res, pa, len)
}

/// Adds the range `[pa, pa + len)` to the table, keeping it sorted. The
/// range must not overlap one that is there already.
pub fn boot_reserve_add_range(res: &mut Vec<BootReserveRange>, pa: paddr_t, len: usize) -> (r:
    Result<(), ErrNO>)
    requires
        reserves_wf(old(res)@),
        len > 0,
        pa + len - 1 <= usize::MAX,
        !hits_reserve(old(res)@, pa as int, len as int),
    ensures
        r is Ok,
        final(res)@ == old(res)@.insert(
            insert_position(old(res)@, pa + len - 1),
            BootReserveRange { pa, len },
        ),
        final(res)@.len() == old(res)@.len() + 1,
        final(res)@.len() < MAX_RESERVES - 1 ==> reserves_wf(final(res)@),
{
    // Insert into the list, sorted.
    let end: paddr_t = pa + (len - 1);
    let mut i: usize = 0;
    while i < res.len()
        invariant
            i <= res@.len(),
            res@ == old(res)@,
            forall|k: int| 0 <= k < i ==> (#[trigger] res@[k]).pa <= end,
        ensures
            i < res@.len() ==> res@[i as int].pa > end,
        decreases res@.len() - i,
    {
        if res[i].pa > end {
            break;
        }
        i += 1;
    }
    proof {
        lemma_insert_position(res@, end as int, i as int);
        let range = BootReserveRange { pa, len };
        let after = res@.insert(i as int, range);
        assert forall|a: int, b: int| 0 <= a < b < after.len() implies (#[trigger] after[a]).pa
            + after[a].len <= (#[trigger] after[b]).pa by {
            let oa = if a < i {
                a
            } else {
                a - 1
            };
            let ob = if b < i {
                b
            } else {
                b - 1
            };
            if a == i {
                assert(res@[i as int].pa <= res@[ob].pa) by {
                    if ob > i {
                        assert(res@[i as int].pa + res@[i as int].len <= res@[ob].pa);
                    }
                }
            } else if b == i {
                assert(!spec_intersects(
                    res@[oa].pa as int,
                    res@[oa].len as int,
                    pa as int,
                    len as int,
                ));
            } else {
                assert(res@[oa].pa + res@[oa].len <= res@[ob].pa);
            }
        }
    }
    let range = BootReserveRange { pa, len };
    res.insert(i, range);
    Ok(())
}

/// The range `[p, p + alloc_len)` lies inside `[range_pa, range_pa +
/// range_len)` and overlaps no range of the table.
pub open spec fn valid_spot(
    res: Seq<BootReserveRange>,
    range_pa: int,
    range_len: int,
    alloc_len: int,
    p: int,
) -> bool {
    &&& range_pa <= p
    &&& p + alloc_len <= range_pa + range_len
    &&& !hits_reserve(res, p, alloc_len)
}

/// Finds room for `alloc_len` bytes inside `[range_pa, range_pa +
/// range_len)` that overlaps no range of the table, searching from the top
/// down, and stores the highest such spot in `alloc_range`. Fails with
/// `NoMem` when there is none.
pub fn boot_reserve_range_search(
    res: &Vec<BootReserveRange>,
    range_pa: paddr_t,
    range_len: usize,
    alloc_len: usize,
    alloc_range: &mut BootReserveRange,
) -> (r: Result<(), ErrNO>)
    requires
        range_pa + range_len <= usize::MAX,
    ensures
        r is Ok ==> final(alloc_range).len == alloc_len && valid_spot(
            res@,
            range_pa as int,
            range_len as int,
            alloc_len as int,
            final(alloc_range).pa as int,
        ) && forall|p: int|
            p > final(alloc_range).pa ==> !valid_spot(
                res@,
                range_pa as int,
                range_len as int,
                alloc_len as int,
                p,
            ),
        r is Err ==> r == Err::<(), ErrNO>(ErrNO::NoMem) && *final(alloc_range) == *old(
            alloc_range,
        ) && forall|p: int|
            !valid_spot(res@, range_pa as int, range_len as int, alloc_len as int, p),
{
    if alloc_len > range_len {
        return Err(ErrNO::NoMem);
    }
    let mut alloc_pa = upper_align(range_pa, range_len, alloc_len);
    loop
        invariant
            range_pa + range_len <= usize::MAX,
            alloc_len <= range_len,
            range_pa <= alloc_pa <= range_pa + range_len - alloc_len,
            *alloc_range == *old(alloc_range),
            forall|p: int|
                p > alloc_pa ==> !valid_spot(
                    res@,
                    range_pa as int,
                    range_len as int,
                    alloc_len as int,
                    p,
                ),
        decreases alloc_pa,
    {
        // See if it intersects any reserved range.
        let mut i: usize = 0;
        let mut hit = false;
        while i < res.len()
            invariant_except_break
                !hit,
            invariant
                i <= res@.len(),
                forall|k: int|
                    0 <= k < i ==> !spec_intersects(
                        (#[trigger] res@[k]).pa as int,
                        res@[k].len as int,
                        alloc_pa as int,
                        alloc_len as int,
                    ),
            ensures
                hit ==> i < res@.len() && spec_intersects(
                    res@[i as int].pa as int,
                    res@[i as int].len as int,
                    alloc_pa as int,
                    alloc_len as int,
                ),
                !hit ==> !hits_reserve(res@, alloc_pa as int, alloc_len as int),
            decreases res@.len() - i,
        {
            if intersects(res[i].pa, res[i].len, alloc_pa, alloc_len) {
                hit = true;
                break;
            }
            i += 1;
        }
        if !hit {
            alloc_range.pa = alloc_pa;
            alloc_range.len = alloc_len;
            return Ok(());
        }
        let r_pa = res[i].pa;
        proof {
            // Every spot between the new candidate and the old one runs into
            // the range that was hit.
            assert forall|p: int| r_pa - alloc_len < p <= alloc_pa implies !valid_spot(
                res@,
                range_pa as int,
                range_len as int,
                alloc_len as int,
                p,
            ) by {
                assert(spec_intersects(
                    res@[i as int].pa as int,
                    res@[i as int].len as int,
                    p,
                    alloc_len as int,
                ));
            }
        }
        // Make sure this still works with input constraints.
        if r_pa < alloc_len || r_pa - alloc_len < range_pa {
            return Err(ErrNO::NoMem);
        }
        alloc_pa = r_pa - alloc_len;
    }
}

/// The highest address at which `alloc_len` bytes still end inside the
/// range.
fn upper_align(r_pa: paddr_t, r_len: usize, alloc_len: usize) -> (r: paddr_t)
    requires
        r_pa + r_len <= usize::MAX,
        alloc_len <= r_len,
    ensures
        r == r_pa + r_len - alloc_len,
{
    r_pa + r_len - alloc_len
}

} // verus!
