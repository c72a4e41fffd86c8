//! Core of a minimal kernel: physical-frame allocation, virtual-to-physical
//! address translation through a four-level page table, and a single-threaded
//! cooperative task executor driven by explicit wake events.

pub mod addr;
pub mod executor;
pub mod memory;
pub mod paging;
pub mod task;
