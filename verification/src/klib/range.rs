//! Overlap and containment of offset/length pairs.
use vstd::prelude::*;

verus! {

/// Two half-open ranges `[offset, offset + len)` share at least one point.
pub open spec fn spec_intersects(offset1: int, len1: int, offset2: int, len2: int) -> bool {
    len1 > 0 && len2 > 0 && offset1 < offset2 + len2 && offset2 < offset1 + len1
}

/// The range `[offset, offset + len)` lies inside the closed span from `min`
/// to `max`.
pub open spec fn spec_is_in_range(offset: int, len: int, min: int, max: int) -> bool {
    min <= offset && offset + len <= max
}

/// Given two offset/length pairs, determines whether they overlap at all.
/// A range of length zero overlaps nothing.
pub fn intersects(offset1: usize, len1: usize, offset2: usize, len2: usize) -> (r: bool)
    ensures
        r == spec_intersects(offset1 as int, len1 as int, offset2 as int, len2 as int),
{
    if len1 == 0 || len2 == 0 {
        return false;
    }
    if offset1 <= offset2 {
        // Does not intersect when 1 is completely below 2.
        if len1 <= offset2 - offset1 {
            return false;
        }
    } else if len2 <= offset1 - offset2 {
        // 1 is completely above 2.
        return false;
    }
    true
}

/// Determines whether `[offset, offset + len)` lies within `[min, max]`.
/// A range whose end wraps around the address space lies in no span.
pub fn is_in_range(offset: usize, len: usize, min: usize, max: usize) -> (r: bool)
    ensures
        r == spec_is_in_range(offset as int, len as int, min as int, max as int),
{
    if offset < min || max < min {
        return false;
    }
    let offset = offset - min;
    let max = max - min;
    // We started off the end of the range.
    if offset > max {
        return false;
    }
    // Does the end exceed the range?
    if len > max - offset {
        return false;
    }
    true
}

} // verus!
