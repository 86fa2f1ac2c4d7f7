//! Numbers and masks of processors.
use vstd::prelude::*;
use crate::defines::SMP_MAX_CPUS;

verus! {

/// The number of a processor.
pub type cpu_num_t = usize;

/// A set of processors, one bit for each.
pub type cpu_mask_t = usize;

/// The number that stands for no processor.
pub const INVALID_CPU: usize = usize::MAX;

/// The mask of all processors.
pub const CPU_MASK_ALL: usize = usize::MAX;

/// The mask of the processor `num`: its bit, or nothing if there is no
/// such processor.
pub open spec fn spec_cpu_num_to_mask(num: cpu_num_t) -> cpu_mask_t {
    if num < SMP_MAX_CPUS {
        1usize << num
    } else {
        0
    }
}

/// Tells whether `num` is the number of a processor.
pub fn is_valid_cpu_num(num: cpu_num_t) -> (r: bool)
    ensures
        r == (num < SMP_MAX_CPUS),
{
    num < SMP_MAX_CPUS
}

/// The mask of the processor `num`.
pub fn cpu_num_to_mask(num: cpu_num_t) -> (r: cpu_mask_t)
    ensures
        r == spec_cpu_num_to_mask(num),
{
    if !is_valid_cpu_num(num) {
        return 0;
    }
    1usize << num
}

} // verus!
