//! Memory-management core of a small x86_64 kernel: a bitmap frame allocator,
//! a four-level page-table walker, a bump virtual-memory object manager and a
//! boundary-tag heap, all over an explicit model of physical memory.

pub mod address;
pub mod utils;
pub mod linked_list;
pub mod bitmap;
pub mod pmm;
pub mod paging;
pub mod vmm;
pub mod heap;
pub mod memory;
pub mod arch;
pub mod serial;
pub mod elf;
pub mod acpi;

