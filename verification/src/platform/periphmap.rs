//! Where the registers of devices are mapped: one range below the other,
//! below the kernel image.
use vstd::prelude::*;
use crate::align::is_page_aligned;
use crate::defines::{kernel_base_virt, KernelLayout, PAGE_SIZE};
use crate::errors::ErrNO;
use crate::types::{paddr_t, vaddr_t};

verus! {

/// No more ranges of registers than this are mapped.
pub const MAX_PERIPH_RANGES: usize = 4;

/// The gap that is left between the kernel image and the ranges of
/// registers below it.
pub const PERIPH_GAP: usize = 0x40000000;

/// A range of registers of devices: where it lies in physical memory,
/// and where it is mapped.
#[derive(Clone, Copy, Debug, PartialEq, Eq, Structural)]
pub struct PeriphRange {
    pub base_phys: paddr_t,
    pub base_virt: vaddr_t,
    pub length: usize,
}

/// The bytes that the ranges `ranges` have together.
pub open spec fn total_length(ranges: Seq<PeriphRange>) -> int
    decreases ranges.len(),
{
    if ranges.len() == 0 {
        0
    } else {
        total_length(ranges.drop_last()) + ranges.last().length
    }
}

/// Where a range of `length` bytes is mapped that is added to `ranges`:
/// below the ranges that are there, which lie below the gap under the
/// kernel image.
pub open spec fn periph_virt(layout: &KernelLayout, ranges: Seq<PeriphRange>, length: int) -> int {
    layout.kernel_base_virt - PERIPH_GAP - total_length(ranges) - length
}

/// Why `add_periph_range` refuses a range, if it does.
pub open spec fn periph_error(
    layout: &KernelLayout,
    ranges: Seq<PeriphRange>,
    base_phys: paddr_t,
    length: usize,
) -> Option<ErrNO> {
    if ranges.len() >= MAX_PERIPH_RANGES {
        Some(ErrNO::OutOfRange)
    } else if base_phys % PAGE_SIZE != 0 || length % PAGE_SIZE != 0 {
        Some(ErrNO::BadAlign)
    } else if periph_virt(layout, ranges, length as int) < 0 {
        Some(ErrNO::OutOfRange)
    } else {
        None
    }
}

/// Adds the range `[base_phys, base_phys + length)` of registers to
/// `ranges` and says where it is to be mapped: below the ranges that are
/// there. There must be room for it below the kernel image.
pub fn add_periph_range(
    ranges: &mut Vec<PeriphRange>,
    layout: &KernelLayout,
    base_phys: paddr_t,
    length: usize,
) -> (r: Result<(), ErrNO>)
    ensures
        r == (match periph_error(layout, old(ranges)@, base_phys, length) {
            Some(e) => Err::<(), ErrNO>(e),
            None => Ok::<(), ErrNO>(()),
        }),
        r is Err ==> final(ranges)@ == old(ranges)@,
        r is Ok ==> final(ranges)@ == old(ranges)@.push(
            PeriphRange {
                base_phys,
                base_virt: periph_virt(layout, old(ranges)@, length as int) as usize,
                length,
            },
        ),
{
    if ranges.len() >= MAX_PERIPH_RANGES {
        return Err(ErrNO::OutOfRange);
    }
    if !is_page_aligned(base_phys) || !is_page_aligned(length) {
        return Err(ErrNO::BadAlign);
    }
    // Ranges of registers are mapped below the kernel image.
    let mut base_virt = kernel_base_virt(layout);
    // Give ourselves an extra gap of space to try to catch overruns.
    if base_virt < PERIPH_GAP {
        proof {
            lemma_total_length(ranges@);
        }
        return Err(ErrNO::OutOfRange);
    }
    base_virt -= PERIPH_GAP;
    let mut i: usize = 0;
    proof {
        assert(ranges@.take(0) =~= Seq::<PeriphRange>::empty());
    }
    while i < ranges.len()
        invariant
            i <= ranges@.len(),
            ranges@ == old(ranges)@,
            ranges@.len() < MAX_PERIPH_RANGES,
            base_phys % PAGE_SIZE == 0,
            length % PAGE_SIZE == 0,
            base_virt == layout.kernel_base_virt - PERIPH_GAP - total_length(ranges@.take(i as int)),
        decreases ranges@.len() - i,
    {
        proof {
            assert(ranges@.take(i + 1).drop_last() =~= ranges@.take(i as int));
            assert(ranges@.take(i + 1).last() == ranges@[i as int]);
            assert(total_length(ranges@.take(i + 1)) == total_length(ranges@.take(i as int))
                + ranges@[i as int].length);
            lemma_total_length_take(ranges@, i + 1);
        }
        if base_virt < ranges[i].length {
            return Err(ErrNO::OutOfRange);
        }
        base_virt -= ranges[i].length;
        i += 1;
    }
    proof {
        assert(ranges@.take(ranges@.len() as int) =~= ranges@);
    }
    if base_virt < length {
        return Err(ErrNO::OutOfRange);
    }
    base_virt -= length;
    ranges.push(PeriphRange { base_phys, base_virt, length });
    Ok(())
}

/// Ranges have no bytes less together than none.
proof fn lemma_total_length(ranges: Seq<PeriphRange>)
    ensures
        total_length(ranges) >= 0,
    decreases ranges.len(),
{
    if ranges.len() > 0 {
        lemma_total_length(ranges.drop_last());
    }
}

/// The first `k` ranges have no more bytes together than all.
proof fn lemma_total_length_take(ranges: Seq<PeriphRange>, k: int)
    requires
        0 <= k <= ranges.len(),
    ensures
        total_length(ranges.take(k)) <= total_length(ranges),
    decreases ranges.len() - k,
{
    if k < ranges.len() {
        lemma_total_length_take(ranges, k + 1);
        assert(ranges.take(k + 1).drop_last() =~= ranges.take(k));
    } else {
        assert(ranges.take(k) =~= ranges);
    }
}

} // verus!
