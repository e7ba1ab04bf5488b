//! Memory pools as allocation scopes: the default pool, or a named pool that
//! an allocator made, with an optional display name.
use vstd::prelude::*;

use crate::error::AllocError;

verus! {

/// The pool that an allocation request is made in.
#[derive(Clone, Copy, Debug, PartialEq, Eq, Structural)]
pub enum PoolHandle {
    /// The allocator's own default pool.
    Default,
    /// A pool made by `create_pool`, by its number.
    Named(u64),
}

impl PoolHandle {
    /// This is the default pool.
    pub fn is_default(&self) -> (r: bool)
        ensures
            r == (*self == PoolHandle::Default),
    {
        match self {
            PoolHandle::Default => true,
            PoolHandle::Named(_) => false,
        }
    }
}

/// How to make a pool.
#[derive(Clone, Copy, Debug, PartialEq, Eq, Structural)]
pub struct PoolCreateInfo {
    pub memory_type_index: u32,
    /// The size of each block; 0 leaves it to the allocator.
    pub block_size: u64,
    pub min_block_count: usize,
    /// The most blocks the pool may hold; 0 means no limit.
    pub max_block_count: usize,
}

/// The block counts agree: no limit, or a limit no lower than the minimum.
pub open spec fn valid_pool_info(info: PoolCreateInfo) -> bool {
    info.max_block_count == 0 || info.min_block_count <= info.max_block_count
}

/// A pool as seen by its user: which pool it is, and its display name.
pub struct AllocatorPool {
    pool: PoolHandle,
    name: Option<String>,
}

impl AllocatorPool {
    pub closed spec fn handle(&self) -> PoolHandle {
        self.pool
    }

    pub closed spec fn name_spec(&self) -> Option<String> {
        self.name
    }

    /// Sets the display name, or takes it away with `None`. The default pool
    /// has no name, and this leaves it unchanged.
    pub fn set_name(&mut self, name: Option<String>)
        ensures
            final(self).handle() == old(self).handle(),
            old(self).handle() == PoolHandle::Default ==> final(self).name_spec() == old(
                self,
            ).name_spec(),
            old(self).handle() != PoolHandle::Default ==> final(self).name_spec() == name,
    {
        if self.pool.is_default() {
            return;
        }
        self.name = name;
    }

    /// The display name; `None` for the default pool and for a pool that
    /// has none.
    pub fn name(&self) -> (r: Option<&String>)
        ensures
            self.handle() == PoolHandle::Default ==> r is None,
            self.handle() != PoolHandle::Default ==> (r is None <==> self.name_spec() is None),
            self.handle() != PoolHandle::Default ==> (r matches Some(n) ==> self.name_spec()
                == Some(*n)),
    {
        if self.pool.is_default() {
            return None;
        }
        match &self.name {
            Some(n) => Some(n),
            None => None,
        }
    }
}

/// A scope that allocation requests are made in: the allocator itself,
/// whose requests go to its default pool, or one of its pools.
pub trait Alloc {
    /// The pool that this scope's requests go to.
    spec fn scope(&self) -> PoolHandle;

    /// The pool that this scope's requests go to.
    fn pool(&self) -> (r: PoolHandle)
        ensures
            r == self.scope(),
    ;
}

impl Alloc for AllocatorPool {
    open spec fn scope(&self) -> PoolHandle {
        self.handle()
    }

    fn pool(&self) -> (r: PoolHandle) {
        self.pool
    }
}

impl Alloc for Allocator {
    open spec fn scope(&self) -> PoolHandle {
        PoolHandle::Default
    }

    fn pool(&self) -> (r: PoolHandle) {
        PoolHandle::Default
    }
}

/// The allocator that pools belong to. It numbers the pools it makes.
pub struct Allocator {
    next_pool: u64,
}

impl Allocator {
    pub closed spec fn pools_made(&self) -> int {
        self.next_pool as int
    }

    /// An allocator that has made no pool.
    pub fn new() -> (r: Self)
        ensures
            r.pools_made() == 0,
    {
        Allocator { next_pool: 0 }
    }

    /// Makes a pool with a number of its own and no name. Refused with
    /// `InvalidConfiguration` where the block counts disagree, and with
    /// `OutOfSpace` where every number has been used; a refusal changes
    /// nothing.
    pub fn create_pool(&mut self, create_info: &PoolCreateInfo) -> (r: Result<
        AllocatorPool,
        AllocError,
    >)
        ensures
            !valid_pool_info(*create_info) ==> r == Err::<AllocatorPool, AllocError>(
                AllocError::InvalidConfiguration,
            ),
            valid_pool_info(*create_info) && old(self).pools_made() == u64::MAX ==> r == Err::<
                AllocatorPool,
                AllocError,
            >(AllocError::OutOfSpace),
            r is Ok <==> valid_pool_info(*create_info) && old(self).pools_made() < u64::MAX,
            r is Err ==> final(self).pools_made() == old(self).pools_made(),
            r matches Ok(p) ==> p.handle() == PoolHandle::Named(old(self).pools_made() as u64)
                && p.name_spec() is None && final(self).pools_made() == old(self).pools_made() + 1,
    {
        if create_info.max_block_count != 0 && create_info.min_block_count
            > create_info.max_block_count {
            return Err(AllocError::InvalidConfiguration);
        }
        if self.next_pool == u64::MAX {
            return Err(AllocError::OutOfSpace);
        }
        let id = self.next_pool;
        self.next_pool = id + 1;
        Ok(AllocatorPool { pool: PoolHandle::Named(id), name: None })
    }

    /// The default pool, which has no name.
    pub fn default_pool(&self) -> (r: AllocatorPool)
        ensures
            r.handle() == PoolHandle::Default,
            r.name_spec() is None,
    {
        AllocatorPool { pool: PoolHandle::Default, name: None }
    }
}

} // verus!
