use vk_mem::{Alloc, AllocError, Allocator, PoolCreateInfo, PoolHandle, RangeAllocator};

fn pool_info(min_block_count: usize, max_block_count: usize) -> PoolCreateInfo {
    PoolCreateInfo {
        memory_type_index: 0,
        block_size: 128,
        min_block_count,
        max_block_count,
    }
}

#[test]
fn default_pool_has_no_name() {
    let allocator = Allocator::new();
    let mut pool = allocator.default_pool();
    assert_eq!(pool.pool(), PoolHandle::Default);
    assert!(pool.pool().is_default());
    pool.set_name(Some("textures".to_string()));
    assert_eq!(pool.name(), None);
}

#[test]
fn named_pool_keeps_its_name() {
    let mut allocator = Allocator::new();
    let mut pool = allocator.create_pool(&pool_info(1, 4)).unwrap();
    assert_eq!(pool.pool(), PoolHandle::Named(0));
    assert_eq!(pool.name(), None);
    pool.set_name(Some("textures".to_string()));
    assert_eq!(pool.name().map(|s| s.as_str()), Some("textures"));
    pool.set_name(None);
    assert_eq!(pool.name(), None);
}

#[test]
fn pools_get_their_own_numbers() {
    let mut allocator = Allocator::new();
    let a = allocator.create_pool(&pool_info(0, 0)).unwrap();
    let b = allocator.create_pool(&pool_info(2, 2)).unwrap();
    assert_eq!(a.pool(), PoolHandle::Named(0));
    assert_eq!(b.pool(), PoolHandle::Named(1));
}

#[test]
fn pool_with_more_minimum_than_maximum_is_invalid() {
    let mut allocator = Allocator::new();
    assert_eq!(
        allocator.create_pool(&pool_info(5, 2)).err(),
        Some(AllocError::InvalidConfiguration)
    );
    let a = allocator.create_pool(&pool_info(5, 0)).unwrap();
    assert_eq!(a.pool(), PoolHandle::Named(0));
}

#[test]
fn range_allocator_release_rejects_free_space() {
    let mut r = RangeAllocator::new(100);
    assert_eq!(r.carve(10, 1), Ok(0));
    assert_eq!(r.carve(10, 8), Ok(16));
    assert_eq!(r.range_count(), 2);
    // Already free, partly free, empty, and out of the space: all refused.
    assert_eq!(r.release(50, 10), Err(AllocError::InvalidConfiguration));
    assert_eq!(r.release(5, 10), Err(AllocError::InvalidConfiguration));
    assert_eq!(r.release(0, 0), Err(AllocError::InvalidConfiguration));
    assert_eq!(r.release(95, 10), Err(AllocError::InvalidConfiguration));
    assert_eq!(r.free_bytes(), 80);
    assert_eq!(r.release(0, 10), Ok(()));
    assert_eq!(r.release(16, 10), Ok(()));
    assert_eq!(r.range_count(), 1);
    assert_eq!(r.largest_free(), 100);
    assert_eq!(r.free_bytes(), 100);
}

#[test]
fn range_allocator_clear_frees_everything() {
    let mut r = RangeAllocator::new(64);
    assert_eq!(r.carve(64, 1), Ok(0));
    assert_eq!(r.carve(1, 1), Err(AllocError::OutOfSpace));
    assert_eq!(r.free_bytes(), 0);
    assert_eq!(r.largest_free(), 0);
    r.clear();
    assert_eq!(r.free_bytes(), 64);
    assert_eq!(r.capacity(), 64);
}

#[test]
fn allocator_scope_is_the_default_pool() {
    let allocator = Allocator::new();
    assert_eq!(allocator.pool(), PoolHandle::Default);
    assert_eq!(allocator.default_pool().pool(), allocator.pool());
}
