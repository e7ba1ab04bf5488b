//! Host-side bookkeeping for GPU memory: a verified virtual address-space
//! allocator (first fit over merged free ranges, with records by handle) and
//! a model of memory pools as allocation scopes.

pub mod error;
pub mod pool;
pub mod ranges;
pub mod records;
pub mod virtual_block;

pub use error::AllocError;
pub use pool::{Alloc, Allocator, AllocatorPool, PoolCreateInfo, PoolHandle};
pub use ranges::RangeAllocator;
pub use records::{Record, RecordStore};
pub use virtual_block::{
    is_power_of_two, Statistics, VirtualAllocation, VirtualAllocationCreateFlags,
    VirtualAllocationCreateInfo, VirtualAllocationInfo, VirtualBlock, VirtualBlockCreateInfo,
};
