//! Containers and small utilities the allocators are built on.
pub mod bitmap;
pub mod cmpctmalloc;
pub mod heap_model;
pub mod list;
pub mod range;
pub mod rbtree;
