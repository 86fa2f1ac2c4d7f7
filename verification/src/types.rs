//! Plain aliases for the integer kinds the kernel distinguishes by name.
use vstd::prelude::*;

verus! {

/// A physical address.
pub type paddr_t = usize;

/// A virtual address.
pub type vaddr_t = usize;

/// Protection bits of a mapping.
pub type prot_t = usize;

/// A raw page-table entry.
pub type pte_t = u64;

} // verus!
