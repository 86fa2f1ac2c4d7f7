//! What depends on the processor architecture.
pub mod mmu;
