use vk_mem::{
    AllocError, VirtualAllocationCreateFlags, VirtualAllocationCreateInfo, VirtualBlock,
    VirtualBlockCreateInfo,
};

const MIB: u64 = 1024 * 1024;

fn block(size: u64) -> VirtualBlock {
    let create_info = VirtualBlockCreateInfo::new().size(size);
    VirtualBlock::new(create_info).expect("Couldn't create VirtualBlock")
}

fn request(size: u64, alignment: u64, user_data: usize) -> VirtualAllocationCreateInfo {
    VirtualAllocationCreateInfo {
        size,
        alignment,
        user_data,
        flags: VirtualAllocationCreateFlags::empty(),
    }
}

#[test]
fn create_virtual_block() {
    let create_info = VirtualBlockCreateInfo::new().size(16 * 1024 * 1024); // 16MB block
    let _virtual_block = VirtualBlock::new(create_info).expect("Couldn't create VirtualBlock");
}

#[test]
fn virtual_allocate_and_free() {
    let create_info = VirtualBlockCreateInfo::new().size(16 * 1024 * 1024); // 16MB block
    let mut virtual_block =
        VirtualBlock::new(create_info).expect("Couldn't create VirtualBlock");

    let allocation_info = VirtualAllocationCreateInfo {
        size: 8 * 1024 * 1024,
        alignment: 0,
        user_data: 0,
        flags: VirtualAllocationCreateFlags::empty(),
    };

    // Fully allocate the VirtualBlock and then free both allocations
    let (virtual_alloc_0, offset_0) = virtual_block.allocate(allocation_info).unwrap();
    let (virtual_alloc_1, offset_1) = virtual_block.allocate(allocation_info).unwrap();
    assert_ne!(offset_0, offset_1);
    virtual_block.free(virtual_alloc_0).unwrap();
    virtual_block.free(virtual_alloc_1).unwrap();

    // Fully allocate it again and then clear it
    let (_virtual_alloc_0, offset_0) = virtual_block.allocate(allocation_info).unwrap();
    let (_virtual_alloc_1, offset_1) = virtual_block.allocate(allocation_info).unwrap();
    assert_ne!(offset_0, offset_1);
    virtual_block.clear();
    assert_eq!(virtual_block.statistics().allocation_count, 0);
}

#[test]
fn virtual_allocation_user_data() {
    let create_info = VirtualBlockCreateInfo::new().size(16 * 1024 * 1024); // 16MB block
    let mut virtual_block =
        VirtualBlock::new(create_info).expect("Couldn't create VirtualBlock");

    let user_data = Box::new(vec![12, 34, 56, 78, 90]);
    let allocation_info = VirtualAllocationCreateInfo {
        size: 8 * 1024 * 1024,
        alignment: 0,
        user_data: user_data.as_ptr() as usize,
        flags: VirtualAllocationCreateFlags::empty(),
    };

    let (virtual_alloc_0, _) = virtual_block.allocate(allocation_info).unwrap();
    let queried_info = virtual_block
        .get_allocation_info(&virtual_alloc_0)
        .expect("Couldn't get VirtualAllocationInfo from VirtualBlock");
    // The payload comes back as the same address, so it still reads the same values.
    assert_eq!(queried_info.user_data, user_data.as_ptr() as usize);
    assert_eq!(*user_data, vec![12, 34, 56, 78, 90]);
    virtual_block.free(virtual_alloc_0).unwrap();
}

#[test]
fn virtual_block_out_of_space() {
    let create_info = VirtualBlockCreateInfo::new().size(16 * 1024 * 1024); // 16MB block
    let mut virtual_block =
        VirtualBlock::new(create_info).expect("Couldn't create VirtualBlock");

    let allocation_info = VirtualAllocationCreateInfo {
        size: 16 * 1024 * 1024 + 1,
        alignment: 0,
        user_data: 0,
        flags: VirtualAllocationCreateFlags::empty(),
    };

    match virtual_block.allocate(allocation_info) {
        Ok(_) => panic!("Created VirtualAllocation larger than VirtualBlock"),
        Err(AllocError::OutOfSpace) => {}
        Err(_) => panic!("Unexpected VirtualBlock error"),
    }
}

#[test]
fn two_halves_fill_and_free() {
    let mut b = block(16 * MIB);
    let (a0, o0) = b.allocate(request(8 * MIB, 0, 0)).unwrap();
    let (a1, o1) = b.allocate(request(8 * MIB, 0, 0)).unwrap();
    assert_ne!(o0, o1);
    let s = b.statistics();
    assert_eq!(s.allocation_count, 2);
    assert_eq!(s.free_bytes, 0);
    assert_eq!(s.used_bytes, 16 * MIB);
    assert_eq!(s.free_range_count, 0);
    b.free(a0).unwrap();
    b.free(a1).unwrap();
    let s = b.statistics();
    assert_eq!(s.free_bytes, 16 * MIB);
    assert_eq!(s.allocation_count, 0);
    assert_eq!(s.used_bytes, 0);
}

#[test]
fn larger_than_capacity_is_out_of_space() {
    let mut b = block(4096);
    assert_eq!(b.allocate(request(4097, 0, 0)), Err(AllocError::OutOfSpace));
    assert_eq!(b.statistics().free_bytes, 4096);
}

#[test]
fn user_data_comes_back_exactly() {
    let mut b = block(1024);
    let x: usize = 0xDEAD_BEEF;
    let (h, off) = b.allocate(request(100, 0, x)).unwrap();
    let info = b.get_allocation_info(&h).unwrap();
    assert_eq!(info.user_data, x);
    assert_eq!(info.offset, off);
    assert_eq!(info.size, 100);
}

#[test]
fn freed_handle_is_unknown() {
    let mut b = block(1024);
    let (h, _) = b.allocate(request(64, 0, 7)).unwrap();
    b.free(h).unwrap();
    assert_eq!(b.get_allocation_info(&h), Err(AllocError::UnknownHandle));
    assert_eq!(b.free(h), Err(AllocError::UnknownHandle));
}

#[test]
fn cleared_handle_is_unknown() {
    let mut b = block(1024);
    let (h, _) = b.allocate(request(64, 0, 7)).unwrap();
    b.clear();
    assert_eq!(b.get_allocation_info(&h), Err(AllocError::UnknownHandle));
    let s = b.statistics();
    assert_eq!(s.free_range_count, 1);
    assert_eq!(s.largest_free_range, 1024);
}

#[test]
fn adjacent_regions_merge_in_either_order() {
    for first_free_is_low in [true, false] {
        let mut b = block(1000);
        let (lo, o_lo) = b.allocate(request(400, 0, 0)).unwrap();
        let (hi, o_hi) = b.allocate(request(600, 0, 0)).unwrap();
        assert_eq!(o_lo, 0);
        assert_eq!(o_hi, 400);
        assert_eq!(b.statistics().free_range_count, 0);
        if first_free_is_low {
            b.free(lo).unwrap();
            assert_eq!(b.statistics().free_range_count, 1);
            b.free(hi).unwrap();
        } else {
            b.free(hi).unwrap();
            assert_eq!(b.statistics().free_range_count, 1);
            b.free(lo).unwrap();
        }
        let s = b.statistics();
        assert_eq!(s.free_range_count, 1);
        assert_eq!(s.largest_free_range, 1000);
        assert_eq!(s.free_bytes, 1000);
    }
}

#[test]
fn middle_free_merges_with_both_sides() {
    let mut b = block(300);
    let (a, _) = b.allocate(request(100, 0, 0)).unwrap();
    let (m, _) = b.allocate(request(100, 0, 0)).unwrap();
    let (c, _) = b.allocate(request(100, 0, 0)).unwrap();
    b.free(a).unwrap();
    b.free(c).unwrap();
    let s = b.statistics();
    assert_eq!(s.free_range_count, 2);
    assert_eq!(s.largest_free_range, 100);
    b.free(m).unwrap();
    let s = b.statistics();
    assert_eq!(s.free_range_count, 1);
    assert_eq!(s.largest_free_range, 300);
}

#[test]
fn offsets_respect_alignment() {
    let mut b = block(4096);
    let (_, o0) = b.allocate(request(3, 0, 0)).unwrap();
    assert_eq!(o0, 0);
    let (_, o1) = b.allocate(request(10, 64, 0)).unwrap();
    assert_eq!(o1, 64);
    assert_eq!(o1 % 64, 0);
    let (_, o2) = b.allocate(request(5, 0, 0)).unwrap();
    // First fit: the gap left before the aligned region is reused.
    assert_eq!(o2, 3);
    let (_, o3) = b.allocate(request(1, 256, 0)).unwrap();
    assert_eq!(o3, 256);
    let s = b.statistics();
    assert_eq!(s.used_bytes, 3 + 10 + 5 + 1);
    assert_eq!(s.free_bytes, 4096 - 19);
    assert_eq!(s.free_range_count, 3);
}

#[test]
fn alignment_can_make_it_not_fit() {
    let mut b = block(100);
    let (_, _) = b.allocate(request(1, 0, 0)).unwrap();
    // 99 bytes are free from offset 1, but at alignment 2 only 98 fit.
    assert_eq!(b.allocate(request(99, 2, 0)), Err(AllocError::OutOfSpace));
    let (_, off) = b.allocate(request(98, 2, 0)).unwrap();
    assert_eq!(off, 2);
}

#[test]
fn bad_requests_are_invalid() {
    assert!(VirtualBlock::new(VirtualBlockCreateInfo::new()).is_err());
    assert_eq!(
        VirtualBlock::new(VirtualBlockCreateInfo::new().size(0)).err(),
        Some(AllocError::InvalidConfiguration)
    );
    let mut b = block(1024);
    assert_eq!(b.allocate(request(0, 0, 0)), Err(AllocError::InvalidConfiguration));
    assert_eq!(b.allocate(request(16, 3, 0)), Err(AllocError::InvalidConfiguration));
    assert_eq!(b.allocate(request(16, 48, 0)), Err(AllocError::InvalidConfiguration));
    assert_eq!(b.statistics().allocation_count, 0);
}

#[test]
fn clear_on_empty_block_matches_fresh_block() {
    let fresh = block(5000).statistics();
    let mut b = block(5000);
    b.clear();
    assert_eq!(b.statistics(), fresh);
    b.clear();
    assert_eq!(b.statistics(), fresh);
    assert_eq!(fresh.free_bytes, 5000);
    assert_eq!(fresh.free_range_count, 1);
    assert_eq!(fresh.allocation_count, 0);
}

#[test]
fn freed_slot_is_reused_first() {
    let mut b = block(1000);
    let (h0, _) = b.allocate(request(10, 0, 1)).unwrap();
    let (_h1, _) = b.allocate(request(10, 0, 2)).unwrap();
    b.free(h0).unwrap();
    let (h2, off) = b.allocate(request(10, 0, 3)).unwrap();
    assert_eq!(h2, h0);
    assert_eq!(off, 0);
    assert_eq!(b.get_allocation_info(&h2).unwrap().user_data, 3);
}

#[test]
fn space_stays_accounted_through_a_sequence() {
    let mut b = block(1 << 20);
    let mut live = Vec::new();
    for i in 0..20u64 {
        let (h, _) = b.allocate(request(1000 + i * 37, 1 << (i % 5), i as usize)).unwrap();
        live.push(h);
        if i % 3 == 0 {
            let h = live.remove(0);
            b.free(h).unwrap();
        }
        let s = b.statistics();
        assert_eq!(s.used_bytes + s.free_bytes, 1 << 20);
        assert_eq!(s.allocation_count, live.len());
    }
    let mut regions: Vec<(u64, u64)> = live
        .iter()
        .map(|h| {
            let info = b.get_allocation_info(h).unwrap();
            (info.offset, info.size)
        })
        .collect();
    regions.sort();
    for w in regions.windows(2) {
        assert!(w[0].0 + w[0].1 <= w[1].0);
    }
}

#[test]
fn destroy_refuses_while_allocations_live() {
    let mut b = block(256);
    let (h, _) = b.allocate(request(32, 0, 0)).unwrap();
    let mut b = match b.destroy() {
        Ok(()) => panic!("destroyed a block with a live allocation"),
        Err(b) => b,
    };
    assert_eq!(b.statistics().allocation_count, 1);
    b.free(h).unwrap();
    assert!(b.destroy().is_ok());
}
