//! Virtual memory: mapping flags, address regions and page lists.
pub mod page_queues;
pub mod vm;
pub mod vm_page_list;
pub mod vmar;
