//! Memory-management core of a small kernel: a physical page-frame allocator,
//! a bitmap-backed virtual-region allocator and a coalescing heap allocator,
//! together with the containers and address arithmetic they are built on,
//! and a reader of flattened device trees.
#![allow(non_camel_case_types)]
#![allow(dead_code)]
#![allow(unused_imports)]

pub mod align;
pub mod allocator;
pub mod arch;
pub mod aspace;
pub mod boot;
pub mod cpu;
pub mod defines;
pub mod device_tree;
pub mod errors;
pub mod klib;
pub mod page;
pub mod platform;
pub mod pmm;
pub mod types;
pub mod vm;
pub mod vm_page_state;
