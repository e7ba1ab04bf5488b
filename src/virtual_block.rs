//! Virtual blocks: an address space of fixed size, with no device memory
//! behind it, from which regions are allocated and freed by handle.
use vstd::prelude::*;

use crate::error::AllocError;
use crate::ranges::{
    addresses, has_fit, is_first_fit, largest_len, lemma_addresses_in_space, lemma_full_is_one,
    lemma_total_bound, pad_for, span, total_len, well_spaced, RangeAllocator,
};
use crate::records::{
    first_free, lemma_put, lemma_slot_sum_empty, lemma_take, live_of, put, used_of, Record,
    RecordStore,
};

verus! {

/// `a` is a power of two.
pub open spec fn is_pow2(a: int) -> bool
    decreases a,
{
    if a <= 0 {
        false
    } else if a == 1 {
        true
    } else {
        a % 2 == 0 && is_pow2(a / 2)
    }
}

/// The alignment that a requested alignment stands for: 0 means 1.
pub open spec fn effective_alignment(a: int) -> int {
    if a == 0 {
        1
    } else {
        a
    }
}

/// The addresses of a record's region.
pub open spec fn region(r: Record) -> Set<int> {
    span(r.offset as int, r.offset + r.size)
}

/// A slot is empty, or holds a placed region: not empty, inside the space,
/// at a multiple of its alignment, and with no free address in it.
pub open spec fn slot_ok(o: Option<Record>, capacity: int, free: Set<int>) -> bool {
    match o {
        None => true,
        Some(r) => {
            &&& r.size > 0
            &&& r.offset + r.size <= capacity
            &&& r.offset as int % effective_alignment(r.alignment as int) == 0
            &&& region(r).disjoint(free)
        },
    }
}

/// Two slots do not hold overlapping regions.
pub open spec fn apart(a: Option<Record>, b: Option<Record>) -> bool {
    match (a, b) {
        (Some(x), Some(y)) => x.offset + x.size <= y.offset || y.offset + y.size <= x.offset,
        _ => true,
    }
}

/// Regions with no address in common lie apart.
pub proof fn lemma_apart(a: Record, b: Record)
    requires
        a.size > 0,
        b.size > 0,
        region(a).disjoint(region(b)),
    ensures
        apart(Some(a), Some(b)),
{
    if !apart(Some(a), Some(b)) {
        let x = if a.offset >= b.offset {
            a.offset as int
        } else {
            b.offset as int
        };
        assert(region(a).contains(x) && region(b).contains(x));
    }
}

/// Slots with no record among them hold no bytes; where they count no
/// record, they hold none.
pub proof fn lemma_no_live(s: Seq<Option<Record>>)
    ensures
        live_of(s) >= 0,
        used_of(s) >= 0,
        live_of(s) == 0 ==> used_of(s) == 0 && forall|k: int| 0 <= k < s.len() ==> (#[trigger] s[k]) is None,
    decreases s.len(),
{
    lemma_slot_sum_empty(s, |r: Record| 1);
    lemma_slot_sum_empty(s, |r: Record| r.size as int);
    if s.len() > 0 {
        lemma_no_live(s.drop_last());
        lemma_slot_sum_empty(s.drop_last(), |r: Record| 1);
        if live_of(s) == 0 {
            assert(s.last() is None);
            assert forall|k: int| 0 <= k < s.len() implies (#[trigger] s[k]) is None by {
                if k < s.len() - 1 {
                    assert(s.drop_last()[k] == s[k]);
                } else {
                    assert(s.last() == s[k]);
                }
            }
        }
    }
}

/// What `statistics` reports.
#[derive(Clone, Copy, Debug, PartialEq, Eq, Structural)]
pub struct Statistics {
    /// The number of live allocations.
    pub allocation_count: usize,
    /// The bytes that live allocations take.
    pub used_bytes: u64,
    /// The bytes that no allocation takes.
    pub free_bytes: u64,
    /// The number of free ranges; touching ranges are always one.
    pub free_range_count: usize,
    /// The length of the longest free range.
    pub largest_free_range: u64,
}

/// How to make a virtual block.
#[derive(Clone, Copy, Debug, PartialEq, Eq, Structural)]
pub struct VirtualBlockCreateInfo {
    /// The size of the address space in bytes; it must not be 0.
    pub size: u64,
}

impl VirtualBlockCreateInfo {
    /// A description with size 0, to be set with `size`.
    pub fn new() -> (r: Self)
        ensures
            r.size == 0,
    {
        VirtualBlockCreateInfo { size: 0 }
    }

    /// This description with the given size.
    pub fn size(self, size: u64) -> (r: Self)
        ensures
            r.size == size,
    {
        VirtualBlockCreateInfo { size }
    }
}

/// Hints on how to place an allocation. The block places every allocation at
/// the first fit whatever the hints say.
#[derive(Clone, Copy, Debug, PartialEq, Eq, Structural)]
pub struct VirtualAllocationCreateFlags {
    bits: u32,
}

impl VirtualAllocationCreateFlags {
    /// No hint.
    pub fn empty() -> (r: Self)
        ensures
            r.bits() == 0,
    {
        VirtualAllocationCreateFlags { bits: 0 }
    }

    pub closed spec fn bits(&self) -> u32 {
        self.bits
    }
}

/// What to allocate.
#[derive(Clone, Copy, Debug, PartialEq, Eq, Structural)]
pub struct VirtualAllocationCreateInfo {
    /// The size in bytes; it must not be 0.
    pub size: u64,
    /// A power of two that the offset must be a multiple of, or 0 for any offset.
    pub alignment: u64,
    /// A payload that the block keeps and hands back unchanged.
    pub user_data: usize,
    pub flags: VirtualAllocationCreateFlags,
}

/// What `get_allocation_info` reports of a live allocation.
#[derive(Clone, Copy, Debug, PartialEq, Eq, Structural)]
pub struct VirtualAllocationInfo {
    pub offset: u64,
    pub size: u64,
    pub user_data: usize,
}

/// The handle of an allocation in a virtual block. It owns nothing: the
/// block answers `UnknownHandle` for one that is no longer live.
#[derive(Clone, Copy, Debug, PartialEq, Eq, Structural)]
pub struct VirtualAllocation(usize);

impl VirtualAllocation {
    /// The slot of the block that the handle names.
    pub closed spec fn slot(&self) -> int {
        self.0 as int
    }
}

/// Tests whether `a` is a power of two.
pub fn is_power_of_two(a: u64) -> (r: bool)
    ensures
        r == is_pow2(a as int),
{
    if a == 0 {
        return false;
    }
    let mut x: u64 = a;
    while x > 1 && x % 2 == 0
        invariant
            x > 0,
            is_pow2(x as int) == is_pow2(a as int),
        decreases x,
    {
        x = x / 2;
    }
    x == 1
}

/// An address space `[0, capacity)` that hands out regions of it.
pub struct VirtualBlock {
    ranges: RangeAllocator,
    records: RecordStore,
}

impl VirtualBlock {
    /// The size of the address space.
    pub closed spec fn cap(&self) -> int {
        self.ranges.cap()
    }

    /// The free ranges `(offset, length)`, in order of offset.
    pub closed spec fn free_ranges(&self) -> Seq<(u64, u64)> {
        self.ranges.free_ranges()
    }

    /// The allocation slots; a handle names one of them.
    pub closed spec fn slots(&self) -> Seq<Option<Record>> {
        self.records.slots()
    }

    /// The handle `h` names a live allocation.
    pub open spec fn is_live(&self, h: VirtualAllocation) -> bool {
        0 <= h.slot() < self.slots().len() && self.slots()[h.slot()] is Some
    }

    /// The record of the live allocation `h`.
    pub open spec fn record(&self, h: VirtualAllocation) -> Record {
        self.slots()[h.slot()]->Some_0
    }

    /// The free addresses.
    pub open spec fn free_set(&self) -> Set<int> {
        addresses(self.free_ranges())
    }

    /// The bytes that no allocation takes.
    pub open spec fn free_total(&self) -> int {
        total_len(self.free_ranges())
    }

    /// The bytes that live allocations take.
    pub open spec fn used_total(&self) -> int {
        used_of(self.slots())
    }

    /// The number of live allocations.
    pub open spec fn live_count(&self) -> int {
        live_of(self.slots())
    }

    pub open spec fn wf(&self) -> bool {
        &&& 0 < self.cap() <= u64::MAX
        &&& well_spaced(self.free_ranges(), self.cap())
        &&& forall|h: int|
            0 <= h < self.slots().len() ==> slot_ok(
                #[trigger] self.slots()[h],
                self.cap(),
                self.free_set(),
            )
        &&& forall|h: int, k: int|
            0 <= h < self.slots().len() && 0 <= k < self.slots().len() && h != k ==> apart(
                #[trigger] self.slots()[h],
                #[trigger] self.slots()[k],
            )
        &&& self.free_total() + self.used_total() == self.cap()
    }

    /// The statistics of this state.
    pub open spec fn stats(&self) -> Statistics {
        Statistics {
            allocation_count: self.live_count() as usize,
            used_bytes: self.used_total() as u64,
            free_bytes: self.free_total() as u64,
            free_range_count: self.free_ranges().len() as usize,
            largest_free_range: largest_len(self.free_ranges()) as u64,
        }
    }

    /// No allocation is live and the whole space is one free range.
    pub open spec fn is_fresh(&self, capacity: int) -> bool {
        &&& self.cap() == capacity
        &&& self.free_ranges() == seq![(0u64, capacity as u64)]
        &&& forall|h: int| 0 <= h < self.slots().len() ==> (#[trigger] self.slots()[h]) is None
    }

    /// A block whose whole space is free. Refused where the size is 0.
    pub fn new(create_info: VirtualBlockCreateInfo) -> (r: Result<Self, AllocError>)
        ensures
            r is Ok <==> create_info.size > 0,
            r is Err ==> r == Err::<Self, AllocError>(AllocError::InvalidConfiguration),
            r matches Ok(b) ==> b.wf() && b.is_fresh(create_info.size as int),
    {
        if create_info.size == 0 {
            return Err(AllocError::InvalidConfiguration);
        }
        let b = VirtualBlock {
            ranges: RangeAllocator::new(create_info.size),
            records: RecordStore::new(),
        };
        proof {
            lemma_addresses_in_space(b.free_ranges(), b.cap());
            crate::ranges::lemma_total_single((0u64, create_info.size));
        }
        Ok(b)
    }

    /// The size of the address space.
    pub fn capacity(&self) -> (r: u64)
        ensures
            r == self.cap(),
    {
        self.ranges.capacity()
    }

    /// `after` is what `clear` leaves of a block of `before`'s size.
    pub open spec fn cleared(before: VirtualBlock, after: VirtualBlock) -> bool {
        after.wf() && after.is_fresh(before.cap())
    }

    /// Allocates `size` bytes at a multiple of the alignment (1 where it is 0)
    /// in the first free range that can hold them, and returns the new
    /// allocation's handle, the first free slot, and its offset. Refused with
    /// `InvalidConfiguration` for a zero size or an alignment that is neither
    /// 0 nor a power of two, and with `OutOfSpace` where no free range can
    /// hold the region; a refusal changes nothing.
    pub fn allocate(&mut self, create_info: VirtualAllocationCreateInfo) -> (r: Result<
        (VirtualAllocation, u64),
        AllocError,
    >)
        requires
            old(self).wf(),
        ensures
            final(self).wf(),
            final(self).cap() == old(self).cap(),
            r == Err::<(VirtualAllocation, u64), AllocError>(AllocError::InvalidConfiguration) <==> (
            create_info.size == 0 || !(create_info.alignment == 0 || is_pow2(
                create_info.alignment as int,
            ))),
            r == Err::<(VirtualAllocation, u64), AllocError>(AllocError::OutOfSpace) <==> (
            create_info.size > 0 && (create_info.alignment == 0 || is_pow2(
                create_info.alignment as int,
            )) && !has_fit(
                old(self).free_ranges(),
                create_info.size as int,
                effective_alignment(create_info.alignment as int),
            )),
            r is Err ==> r == Err::<(VirtualAllocation, u64), AllocError>(
                AllocError::InvalidConfiguration,
            ) || r == Err::<(VirtualAllocation, u64), AllocError>(AllocError::OutOfSpace),
            r is Err ==> final(self).slots() == old(self).slots() && final(self).free_ranges()
                == old(self).free_ranges(),
            r matches Ok((h, off)) ==> {
                let rec = Record {
                    offset: off,
                    size: create_info.size,
                    alignment: create_info.alignment,
                    user_data: create_info.user_data,
                };
                let align = effective_alignment(create_info.alignment as int);
                &&& off as int % align == 0
                &&& exists|i: int|
                    is_first_fit(old(self).free_ranges(), i, create_info.size as int, align)
                        && off == (#[trigger] old(self).free_ranges()[i]).0 + pad_for(
                        old(self).free_ranges()[i].0 as int,
                        align,
                    )
                &&& first_free(old(self).slots(), h.slot())
                &&& final(self).slots() == put(old(self).slots(), h.slot(), rec)
                &&& final(self).is_live(h) && final(self).record(h) == rec
                &&& final(self).free_set() == old(self).free_set().difference(region(rec))
                &&& final(self).live_count() == old(self).live_count() + 1
            },
    {
        let valid_alignment = create_info.alignment == 0 || is_power_of_two(create_info.alignment);
        if create_info.size == 0 || !valid_alignment {
            return Err(AllocError::InvalidConfiguration);
        }
        let align: u64 = if create_info.alignment == 0 {
            1
        } else {
            create_info.alignment
        };
        let ghost os = self.slots();
        let ghost ofs = self.free_set();
        let ghost cap = self.cap();
        let off = match self.ranges.carve(create_info.size, align) {
            Ok(off) => off,
            Err(e) => {
                return Err(e);
            },
        };
        let rec = Record {
            offset: off,
            size: create_info.size,
            alignment: create_info.alignment,
            user_data: create_info.user_data,
        };
        let h = self.records.insert(rec);
        proof {
            let ns = self.slots();
            let nfs = self.free_set();
            lemma_put(os, h as int, rec);
            lemma_addresses_in_space(old(self).free_ranges(), cap);
            assert(region(rec).contains(off + create_info.size - 1));
            assert forall|k: int| 0 <= k < ns.len() implies slot_ok(#[trigger] ns[k], cap, nfs) by {
                if k != h {
                    assert(ns[k] == os[k]);
                    assert(slot_ok(os[k], cap, ofs));
                }
            }
            assert forall|a: int, b: int|
                0 <= a < ns.len() && 0 <= b < ns.len() && a != b implies apart(
                #[trigger] ns[a],
                #[trigger] ns[b],
            ) by {
                if a == h {
                    assert(ns[b] == os[b]);
                    assert(slot_ok(os[b], cap, ofs));
                    if let Some(y) = os[b] {
                        lemma_apart(rec, y);
                    }
                } else if b == h {
                    assert(ns[a] == os[a]);
                    assert(slot_ok(os[a], cap, ofs));
                    if let Some(x) = os[a] {
                        lemma_apart(x, rec);
                    }
                } else {
                    assert(ns[a] == os[a] && ns[b] == os[b]);
                }
            }
        }
        Ok((VirtualAllocation(h), off))
    }

    /// Frees the allocation `h`: its region becomes free, merged with the free
    /// ranges that touch it, and its slot empties. Refused with
    /// `UnknownHandle`, changing nothing, where `h` is not live.
    pub fn free(&mut self, h: VirtualAllocation) -> (r: Result<(), AllocError>)
        requires
            old(self).wf(),
        ensures
            final(self).wf(),
            final(self).cap() == old(self).cap(),
            r is Ok <==> old(self).is_live(h),
            r is Err ==> r == Err::<(), AllocError>(AllocError::UnknownHandle),
            r is Err ==> final(self).slots() == old(self).slots() && final(self).free_ranges()
                == old(self).free_ranges(),
            r is Ok ==> final(self).slots() == old(self).slots().update(h.slot(), None),
            r is Ok ==> final(self).free_set() == old(self).free_set().union(
                region(old(self).record(h)),
            ),
            r is Ok ==> final(self).live_count() == old(self).live_count() - 1,
    {
        let ghost os = self.slots();
        let ghost ofs = self.free_set();
        let ghost cap = self.cap();
        let rec = match self.records.remove(h.0) {
            Ok(rec) => rec,
            Err(e) => {
                return Err(e);
            },
        };
        proof {
            assert(slot_ok(os[h.slot()], cap, ofs));
        }
        let released = self.ranges.release(rec.offset, rec.size);
        proof {
            assert(released is Ok);
            let ns = self.slots();
            let nfs = self.free_set();
            lemma_take(os, h.slot());
            assert forall|k: int| 0 <= k < ns.len() implies slot_ok(#[trigger] ns[k], cap, nfs) by {
                if k != h.slot() {
                    assert(ns[k] == os[k]);
                    assert(slot_ok(os[k], cap, ofs));
                    assert(apart(os[k], os[h.slot()]));
                }
            }
            assert forall|a: int, b: int|
                0 <= a < ns.len() && 0 <= b < ns.len() && a != b implies apart(
                #[trigger] ns[a],
                #[trigger] ns[b],
            ) by {
                if a != h.slot() && b != h.slot() {
                    assert(ns[a] == os[a] && ns[b] == os[b]);
                }
            }
        }
        Ok(())
    }

    /// Forgets every allocation: the whole space is free again and no handle
    /// issued before is live.
    pub fn clear(&mut self)
        requires
            old(self).wf(),
        ensures
            Self::cleared(*old(self), *final(self)),
    {
        let _drained = self.records.clear_all();
        self.ranges.clear();
        proof {
            lemma_addresses_in_space(self.free_ranges(), self.cap());
            crate::ranges::lemma_total_single((0u64, self.cap() as u64));
            lemma_no_live(self.slots());
        }
    }

    /// The offset, size and payload of the live allocation `h`. Refused with
    /// `UnknownHandle` where `h` is not live.
    pub fn get_allocation_info(&self, h: &VirtualAllocation) -> (r: Result<
        VirtualAllocationInfo,
        AllocError,
    >)
        ensures
            r is Ok <==> self.is_live(*h),
            r is Err ==> r == Err::<VirtualAllocationInfo, AllocError>(AllocError::UnknownHandle),
            r matches Ok(info) ==> info == (VirtualAllocationInfo {
                offset: self.record(*h).offset,
                size: self.record(*h).size,
                user_data: self.record(*h).user_data,
            }),
    {
        match self.records.get(h.0) {
            Ok(rec) => Ok(VirtualAllocationInfo {
                offset: rec.offset,
                size: rec.size,
                user_data: rec.user_data,
            }),
            Err(e) => Err(e),
        }
    }

    /// Ends the block where no allocation is live. Where some are, the block
    /// is handed back unchanged: its users still hold regions of it.
    pub fn destroy(self) -> (r: Result<(), VirtualBlock>)
        requires
            self.wf(),
        ensures
            r is Ok <==> self.live_count() == 0,
            r matches Err(b) ==> b == self,
    {
        if self.records.live() == 0 {
            Ok(())
        } else {
            Err(self)
        }
    }

    /// Counts of the allocations and of the free space.
    pub fn statistics(&self) -> (r: Statistics)
        requires
            self.wf(),
        ensures
            r == self.stats(),
    {
        proof {
            lemma_total_bound(self.free_ranges(), self.cap());
            lemma_no_live(self.slots());
        }
        let free_bytes = self.ranges.free_bytes();
        Statistics {
            allocation_count: self.records.live(),
            used_bytes: self.ranges.capacity() - free_bytes,
            free_bytes,
            free_range_count: self.ranges.range_count(),
            largest_free_range: self.ranges.largest_free(),
        }
    }
}

/// A block with no live allocation whose whole space is one free range
/// reports no allocation, no used byte, and the whole space free in one range.
pub proof fn lemma_fresh_stats(b: VirtualBlock, capacity: int)
    requires
        0 < capacity <= u64::MAX,
        b.is_fresh(capacity),
    ensures
        b.stats() == (Statistics {
            allocation_count: 0,
            used_bytes: 0,
            free_bytes: capacity as u64,
            free_range_count: 1,
            largest_free_range: capacity as u64,
        }),
{
    lemma_slot_sum_empty(b.slots(), |r: Record| 1);
    lemma_slot_sum_empty(b.slots(), |r: Record| r.size as int);
    let s = b.free_ranges();
    crate::ranges::lemma_total_single((0u64, capacity as u64));
    assert(s.drop_last() =~= Seq::<(u64, u64)>::empty());
    assert(largest_len(s.drop_last()) == 0);
}

/// The bytes of the live allocations and the free bytes add up to the
/// capacity, in every state that `new` makes and that `allocate`, `free`
/// and `clear` keep (each of them ensures `wf`), and so do the used and free
/// bytes that `statistics` reports.
pub proof fn lemma_space_accounted(b: VirtualBlock)
    requires
        b.wf(),
    ensures
        b.used_total() + b.free_total() == b.cap(),
        b.stats().used_bytes + b.stats().free_bytes == b.cap(),
{
    lemma_total_bound(b.free_ranges(), b.cap());
    lemma_no_live(b.slots());
    assert(0 <= b.used_total() <= u64::MAX);
    assert(0 <= b.free_total() <= u64::MAX);
    assert(b.stats().used_bytes == b.used_total());
    assert(b.stats().free_bytes == b.free_total());
}

/// Two live allocations never share an address, and no live allocation
/// holds a free address, in every state that `new` makes and that
/// `allocate`, `free` and `clear` keep.
pub proof fn lemma_live_regions_apart(b: VirtualBlock, h1: VirtualAllocation, h2: VirtualAllocation)
    requires
        b.wf(),
        b.is_live(h1),
        b.is_live(h2),
        h1 != h2,
    ensures
        region(b.record(h1)).disjoint(region(b.record(h2))),
        region(b.record(h1)).disjoint(b.free_set()),
{
    assert(h1.slot() != h2.slot());
    assert(apart(b.slots()[h1.slot()], b.slots()[h2.slot()]));
    assert(slot_ok(b.slots()[h1.slot()], b.cap(), b.free_set()));
}

/// Clearing a block with no live allocation leaves the statistics as they
/// were, and they are those of a block just made with the same size.
pub proof fn lemma_clear_on_empty(b: VirtualBlock, cleared: VirtualBlock, made: VirtualBlock)
    requires
        b.wf(),
        b.live_count() == 0,
        VirtualBlock::cleared(b, cleared),
        made.wf(),
        made.is_fresh(b.cap()),
    ensures
        cleared.stats() == b.stats(),
        cleared.stats() == made.stats(),
{
    lemma_no_live(b.slots());
    lemma_full_is_one(b.free_ranges(), b.cap());
    assert(b.free_ranges() =~= seq![(0u64, b.cap() as u64)]);
    lemma_fresh_stats(b, b.cap());
    lemma_fresh_stats(cleared, b.cap());
    lemma_fresh_stats(made, b.cap());
}

} // verus!
