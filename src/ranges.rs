//! The address-range allocator: a fixed linear space `[0, capacity)` whose
//! unallocated part is a list of free ranges, kept sorted by offset, with a
//! gap between any two of them (touching ranges are always merged).
use vstd::arithmetic::div_mod::{lemma_fundamental_div_mod, lemma_mod_multiples_basic};
use vstd::prelude::*;

use crate::error::AllocError;

verus! {

/// One past the last address of the range `(offset, length)`.
pub open spec fn range_end(r: (u64, u64)) -> int {
    r.0 as int + r.1 as int
}

/// The addresses `lo <= x < hi`.
pub open spec fn span(lo: int, hi: int) -> Set<int> {
    Set::new(|x: int| lo <= x < hi)
}

/// Some range of `s` holds the address `x`.
pub open spec fn covers(s: Seq<(u64, u64)>, x: int) -> bool {
    exists|i: int| 0 <= i < s.len() && (#[trigger] s[i]).0 <= x < range_end(s[i])
}

/// Every address that some range of `s` holds.
pub open spec fn addresses(s: Seq<(u64, u64)>) -> Set<int> {
    Set::new(|x: int| covers(s, x))
}

/// The summed lengths of the ranges of `s`.
pub open spec fn total_len(s: Seq<(u64, u64)>) -> int
    decreases s.len(),
{
    if s.len() == 0 {
        0
    } else {
        total_len(s.drop_last()) + s.last().1
    }
}

/// Ranges with positive lengths inside `[0, capacity)`, sorted by offset,
/// each ending strictly before the next one starts.
pub open spec fn well_spaced(s: Seq<(u64, u64)>, capacity: int) -> bool {
    &&& forall|i: int| 0 <= i < s.len() ==> (#[trigger] s[i]).1 > 0 && range_end(s[i]) <= capacity
    &&& forall|i: int, j: int|
        0 <= i < j < s.len() ==> range_end(#[trigger] s[i]) < (#[trigger] s[j]).0
}

/// The padding that moves `offset` up to the next multiple of `align`.
pub open spec fn pad_for(offset: int, align: int) -> int {
    if offset % align == 0 {
        0
    } else {
        align - offset % align
    }
}

/// `size` bytes fit in the range `r` once its start is rounded up to `align`.
pub open spec fn fits(r: (u64, u64), size: int, align: int) -> bool {
    pad_for(r.0 as int, align) + size <= r.1
}

/// Some range of `s` can hold `size` bytes at alignment `align`.
pub open spec fn has_fit(s: Seq<(u64, u64)>, size: int, align: int) -> bool {
    exists|i: int| 0 <= i < s.len() && fits(#[trigger] s[i], size, align)
}

/// `i` is the first range of `s` that can hold `size` bytes at alignment `align`.
pub open spec fn is_first_fit(s: Seq<(u64, u64)>, i: int, size: int, align: int) -> bool {
    &&& 0 <= i < s.len()
    &&& fits(s[i], size, align)
    &&& forall|j: int| 0 <= j < i ==> !fits(#[trigger] s[j], size, align)
}

/// Position `p` of `s` can take the range `[offset, offset + size)`: the
/// ranges before `p` end at or below `offset`, and those from `p` on start at
/// or above its end.
pub open spec fn slot_between(s: Seq<(u64, u64)>, p: int, offset: int, size: int) -> bool {
    &&& 0 <= p <= s.len()
    &&& size > 0
    &&& offset >= 0
    &&& p > 0 ==> range_end(s[p - 1]) <= offset
    &&& p < s.len() ==> offset + size <= s[p].0
}

/// The greatest length among the ranges of `s`, 0 where there is none.
pub open spec fn largest_len(s: Seq<(u64, u64)>) -> int
    decreases s.len(),
{
    if s.len() == 0 {
        0
    } else if largest_len(s.drop_last()) >= s.last().1 {
        largest_len(s.drop_last())
    } else {
        s.last().1 as int
    }
}

/// Every free address lies in `[0, capacity)`.
pub proof fn lemma_addresses_in_space(s: Seq<(u64, u64)>, capacity: int)
    requires
        well_spaced(s, capacity),
    ensures
        addresses(s).subset_of(span(0, capacity)),
{
    assert forall|x: int| #[trigger] addresses(s).contains(x) implies span(0, capacity).contains(x) by {
        let j = choose|j: int| 0 <= j < s.len() && (#[trigger] s[j]).0 <= x < range_end(s[j]);
    }
}

/// Each gap between ranges costs at least one address: a well-spaced list
/// whose lengths add up to the whole space is the one range `[0, capacity)`.
pub proof fn lemma_full_is_one(s: Seq<(u64, u64)>, capacity: int)
    requires
        well_spaced(s, capacity),
        capacity > 0,
        total_len(s) == capacity,
    ensures
        s.len() == 1,
        s[0].0 == 0,
        s[0].1 == capacity,
{
    lemma_gaps(s, capacity);
    assert(s.last() == s[s.len() - 1]);
}

/// The lengths of a well-spaced list, plus one address for each gap between
/// them, fit below its last end.
pub proof fn lemma_gaps(s: Seq<(u64, u64)>, capacity: int)
    requires
        well_spaced(s, capacity),
    ensures
        s.len() > 0 ==> total_len(s) + s.len() - 1 <= range_end(s.last()) - s[0].0,
        s.len() == 0 ==> total_len(s) == 0,
    decreases s.len(),
{
    if s.len() > 0 {
        let t = s.drop_last();
        lemma_sub_spaced(s, capacity, s.len() - 1);
        assert(t =~= s.take(s.len() - 1));
        lemma_gaps(t, capacity);
        assert(s.last() == s[s.len() - 1]);
        if t.len() > 0 {
            assert(t.last() == s[s.len() - 2]);
            assert(t[0] == s[0]);
            assert(range_end(s[s.len() - 2]) < s[s.len() - 1].0);
        }
    }
}

pub proof fn lemma_addresses_concat(a: Seq<(u64, u64)>, b: Seq<(u64, u64)>)
    ensures
        addresses(a + b) == addresses(a).union(addresses(b)),
{
    let ab = a + b;
    assert forall|x: int| addresses(ab).contains(x) implies #[trigger] addresses(a).union(
        addresses(b),
    ).contains(x) by {
        let i = choose|i: int| 0 <= i < ab.len() && (#[trigger] ab[i]).0 <= x < range_end(ab[i]);
        if i < a.len() {
            assert(a[i] == ab[i]);
        } else {
            assert(b[i - a.len()] == ab[i]);
        }
    }
    assert forall|x: int| #[trigger] addresses(a).union(addresses(b)).contains(x) implies addresses(
        ab,
    ).contains(x) by {
        if covers(a, x) {
            let i = choose|i: int| 0 <= i < a.len() && (#[trigger] a[i]).0 <= x < range_end(a[i]);
            assert(ab[i] == a[i]);
        } else {
            let i = choose|i: int| 0 <= i < b.len() && (#[trigger] b[i]).0 <= x < range_end(b[i]);
            assert(ab[a.len() + i] == b[i]);
        }
    }
    assert(addresses(ab) =~= addresses(a).union(addresses(b)));
}

pub proof fn lemma_addresses_single(r: (u64, u64))
    ensures
        addresses(seq![r]) == span(r.0 as int, range_end(r)),
{
    let s = seq![r];
    assert forall|x: int| span(r.0 as int, range_end(r)).contains(x) implies #[trigger] addresses(
        s,
    ).contains(x) by {
        assert(s[0] == r);
    }
    assert(addresses(s) =~= span(r.0 as int, range_end(r)));
}

pub proof fn lemma_addresses_empty()
    ensures
        addresses(Seq::<(u64, u64)>::empty()) == Set::<int>::empty(),
{
    assert(addresses(Seq::<(u64, u64)>::empty()) =~= Set::<int>::empty());
}

pub proof fn lemma_total_concat(a: Seq<(u64, u64)>, b: Seq<(u64, u64)>)
    ensures
        total_len(a + b) == total_len(a) + total_len(b),
    decreases b.len(),
{
    if b.len() == 0 {
        assert(a + b =~= a);
    } else {
        lemma_total_concat(a, b.drop_last());
        assert((a + b).drop_last() =~= a + b.drop_last());
    }
}

pub proof fn lemma_total_single(r: (u64, u64))
    ensures
        total_len(seq![r]) == r.1,
{
    let e = seq![r].drop_last();
    assert(e =~= Seq::<(u64, u64)>::empty());
    assert(total_len(e) == 0);
    assert(seq![r].last() == r);
}

/// A well-spaced list holds no more than the space up to its last end.
pub proof fn lemma_total_bound(s: Seq<(u64, u64)>, capacity: int)
    requires
        well_spaced(s, capacity),
        capacity >= 0,
    ensures
        0 <= total_len(s) <= capacity,
        s.len() > 0 ==> total_len(s) <= range_end(s.last()),
    decreases s.len(),
{
    if s.len() > 0 {
        let t = s.drop_last();
        assert(well_spaced(t, capacity)) by {
            assert forall|i: int, j: int| 0 <= i < j < t.len() implies range_end(#[trigger] t[i])
                < (#[trigger] t[j]).0 by {
                assert(t[i] == s[i] && t[j] == s[j]);
            }
        }
        lemma_total_bound(t, capacity);
        if t.len() > 0 {
            assert(t.last() == s[s.len() - 2]);
            assert(range_end(s[s.len() - 2]) < s[s.len() - 1].0);
        }
        assert(s.last() == s[s.len() - 1]);
        assert(range_end(s[s.len() - 1]) <= capacity);
    }
}

/// `s` split around position `i`: the part before, the range, the part after.
pub proof fn lemma_split_at(s: Seq<(u64, u64)>, i: int)
    requires
        0 <= i < s.len(),
    ensures
        s =~= s.take(i) + seq![s[i]] + s.skip(i + 1),
        addresses(s) == addresses(s.take(i)).union(span(s[i].0 as int, range_end(s[i]))).union(
            addresses(s.skip(i + 1)),
        ),
        total_len(s) == total_len(s.take(i)) + s[i].1 + total_len(s.skip(i + 1)),
{
    assert(s =~= s.take(i) + seq![s[i]] + s.skip(i + 1));
    lemma_addresses_concat(s.take(i), seq![s[i]]);
    lemma_addresses_concat(s.take(i) + seq![s[i]], s.skip(i + 1));
    lemma_addresses_single(s[i]);
    lemma_total_concat(s.take(i), seq![s[i]]);
    lemma_total_concat(s.take(i) + seq![s[i]], s.skip(i + 1));
    lemma_total_single(s[i]);
}

/// In a well-spaced list the ranges before `i` lie below it and those after
/// `i` lie above it.
pub proof fn lemma_sides(s: Seq<(u64, u64)>, capacity: int, i: int)
    requires
        well_spaced(s, capacity),
        0 <= i < s.len(),
    ensures
        forall|x: int| #[trigger] addresses(s.take(i)).contains(x) ==> x < s[i].0,
        forall|x: int| #[trigger] addresses(s.skip(i + 1)).contains(x) ==> x > range_end(s[i]),
{
    assert forall|x: int| #[trigger] addresses(s.take(i)).contains(x) implies x < s[i].0 by {
        let t = s.take(i);
        let j = choose|j: int| 0 <= j < t.len() && (#[trigger] t[j]).0 <= x < range_end(t[j]);
        assert(t[j] == s[j]);
    }
    assert forall|x: int| #[trigger] addresses(s.skip(i + 1)).contains(x) implies x > range_end(s[i]) by {
        let t = s.skip(i + 1);
        let j = choose|j: int| 0 <= j < t.len() && (#[trigger] t[j]).0 <= x < range_end(t[j]);
        assert(t[j] == s[i + 1 + j]);
    }
}


/// `a`, then `r`, then `b`: where its addresses are and what it holds.
pub proof fn lemma_parts(a: Seq<(u64, u64)>, r: (u64, u64), b: Seq<(u64, u64)>)
    ensures
        addresses(a + seq![r] + b) == addresses(a).union(span(r.0 as int, range_end(r))).union(
            addresses(b),
        ),
        total_len(a + seq![r] + b) == total_len(a) + r.1 + total_len(b),
{
    lemma_addresses_concat(a, seq![r]);
    lemma_addresses_concat(a + seq![r], b);
    lemma_addresses_single(r);
    lemma_total_concat(a, seq![r]);
    lemma_total_concat(a + seq![r], b);
    lemma_total_single(r);
}

/// The ranges before `i`, and those from `i` on, are well spaced too.
pub proof fn lemma_sub_spaced(s: Seq<(u64, u64)>, capacity: int, i: int)
    requires
        well_spaced(s, capacity),
        0 <= i <= s.len(),
    ensures
        well_spaced(s.take(i), capacity),
        well_spaced(s.skip(i), capacity),
{
    let t = s.take(i);
    let u = s.skip(i);
    assert forall|k: int| 0 <= k < t.len() implies (#[trigger] t[k]).1 > 0 && range_end(t[k])
        <= capacity by {
        assert(t[k] == s[k]);
    }
    assert forall|k: int, j: int| 0 <= k < j < t.len() implies range_end(#[trigger] t[k]) < (
    #[trigger] t[j]).0 by {
        assert(t[k] == s[k] && t[j] == s[j]);
    }
    assert forall|k: int| 0 <= k < u.len() implies (#[trigger] u[k]).1 > 0 && range_end(u[k])
        <= capacity by {
        assert(u[k] == s[i + k]);
    }
    assert forall|k: int, j: int| 0 <= k < j < u.len() implies range_end(#[trigger] u[k]) < (
    #[trigger] u[j]).0 by {
        assert(u[k] == s[i + k] && u[j] == s[i + j]);
    }
}

/// A range placed between two well-spaced lists, with a gap on each side,
/// gives a well-spaced list.
pub proof fn lemma_parts_spaced(
    a: Seq<(u64, u64)>,
    r: (u64, u64),
    b: Seq<(u64, u64)>,
    capacity: int,
)
    requires
        well_spaced(a, capacity),
        well_spaced(b, capacity),
        r.1 > 0,
        range_end(r) <= capacity,
        a.len() > 0 ==> range_end(a.last()) < r.0,
        b.len() > 0 ==> range_end(r) < b[0].0,
    ensures
        well_spaced(a + seq![r] + b, capacity),
{
    let s = a + seq![r] + b;
    let n = a.len() as int;
    assert forall|k: int| 0 <= k < s.len() implies (#[trigger] s[k]).1 > 0 && range_end(s[k])
        <= capacity by {
        if k < n {
            assert(s[k] == a[k]);
        } else if k == n {
            assert(s[k] == r);
        } else {
            assert(s[k] == b[k - n - 1]);
        }
    }
    assert forall|k: int, j: int| 0 <= k < j < s.len() implies range_end(#[trigger] s[k]) < (
    #[trigger] s[j]).0 by {
        if k < n {
            assert(s[k] == a[k]);
            assert(range_end(a[k]) <= range_end(a.last())) by {
                if k < n - 1 {
                    assert(range_end(a[k]) < a[n - 1].0);
                }
            }
        } else if k == n {
            assert(s[k] == r);
        } else {
            assert(s[k] == b[k - n - 1]);
        }
        if j < n {
            assert(s[j] == a[j]);
        } else if j == n {
            assert(s[j] == r);
        } else {
            assert(s[j] == b[j - n - 1]);
            assert(b[0].0 <= b[j - n - 1].0) by {
                if j - n - 1 > 0 {
                    assert(range_end(b[0]) < b[j - n - 1].0);
                }
            }
        }
    }
}

/// Rounding `offset` up by its padding gives a multiple of `align`.
pub proof fn lemma_pad_aligns(offset: int, align: int)
    requires
        offset >= 0,
        align > 0,
    ensures
        0 <= pad_for(offset, align) < align,
        (offset + pad_for(offset, align)) % align == 0,
{
    lemma_fundamental_div_mod(offset, align);
    let q = offset / align;
    if offset % align != 0 {
        assert(offset + pad_for(offset, align) == (q + 1) * align) by (nonlinear_arith)
            requires
                offset == align * q + offset % align,
                pad_for(offset, align) == align - offset % align,
        ;
        lemma_mod_multiples_basic(q + 1, align);
    }
}

/// The free space of a fixed linear address range `[0, capacity)`.
pub struct RangeAllocator {
    capacity: u64,
    free: Vec<(u64, u64)>,
}

impl RangeAllocator {
    /// The size of the address space.
    pub closed spec fn cap(&self) -> int {
        self.capacity as int
    }

    /// The free ranges `(offset, length)`, in order of offset.
    pub closed spec fn free_ranges(&self) -> Seq<(u64, u64)> {
        self.free@
    }

    pub open spec fn wf(&self) -> bool {
        &&& 0 < self.cap() <= u64::MAX
        &&& well_spaced(self.free_ranges(), self.cap())
    }

    /// The free addresses.
    pub open spec fn free_set(&self) -> Set<int> {
        addresses(self.free_ranges())
    }

    /// The number of free bytes.
    pub open spec fn free_total(&self) -> int {
        total_len(self.free_ranges())
    }

    /// A space of `capacity` bytes, all of it free.
    pub fn new(capacity: u64) -> (r: Self)
        requires
            capacity > 0,
        ensures
            r.wf(),
            r.cap() == capacity,
            r.free_ranges() == seq![(0u64, capacity)],
    {
        let mut free: Vec<(u64, u64)> = Vec::new();
        free.push((0, capacity));
        let r = RangeAllocator { capacity, free };
        assert(r.free_ranges() =~= seq![(0u64, capacity)]);
        r
    }

    /// The size of the address space.
    pub fn capacity(&self) -> (r: u64)
        ensures
            r == self.cap(),
    {
        self.capacity
    }

    /// Frees the whole space: one range `[0, capacity)`.
    pub fn clear(&mut self)
        requires
            old(self).wf(),
        ensures
            final(self).wf(),
            final(self).cap() == old(self).cap(),
            final(self).free_ranges() == seq![(0u64, old(self).cap() as u64)],
    {
        self.free.clear();
        self.free.push((0, self.capacity));
        assert(self.free@ =~= seq![(0u64, self.capacity)]);
    }

    /// Takes `size` bytes at a multiple of `align` out of the first free range
    /// that can hold them (first fit), and returns their offset. The rest of
    /// that range stays free, before and after the taken part.
    pub fn carve(&mut self, size: u64, align: u64) -> (r: Result<u64, AllocError>)
        requires
            old(self).wf(),
            size > 0,
            align > 0,
        ensures
            final(self).wf(),
            final(self).cap() == old(self).cap(),
            r is Ok <==> has_fit(old(self).free_ranges(), size as int, align as int),
            r is Err ==> r == Err::<u64, AllocError>(AllocError::OutOfSpace),
            r is Err ==> final(self).free_ranges() == old(self).free_ranges(),
            r matches Ok(off) ==> {
                &&& off as int % align as int == 0
                &&& exists|i: int|
                    is_first_fit(old(self).free_ranges(), i, size as int, align as int)
                        && off == (#[trigger] old(self).free_ranges()[i]).0 + pad_for(
                        old(self).free_ranges()[i].0 as int,
                        align as int,
                    )
                &&& span(off as int, off + size).subset_of(old(self).free_set())
                &&& final(self).free_set() == old(self).free_set().difference(
                    span(off as int, off + size),
                )
                &&& final(self).free_total() == old(self).free_total() - size
            },
    {
        match self.find_fit(size, align) {
            Some(i) => {
                let start = self.take_at(i, size, align);
                Ok(start)
            },
            None => Err(AllocError::OutOfSpace),
        }
    }

    /// The first free range that can hold `size` bytes at alignment `align`.
    fn find_fit(&self, size: u64, align: u64) -> (r: Option<usize>)
        requires
            self.wf(),
            size > 0,
            align > 0,
        ensures
            r is None <==> !has_fit(self.free_ranges(), size as int, align as int),
            r matches Some(i) ==> is_first_fit(self.free_ranges(), i as int, size as int, align as int),
    {
        let ghost s = self.free@;
        let mut i: usize = 0;
        while i < self.free.len()
            invariant
                self.free@ == s,
                align > 0,
                0 <= i <= s.len(),
                forall|j: int| 0 <= j < i ==> !fits(#[trigger] s[j], size as int, align as int),
            decreases s.len() - i,
        {
            let (o, l) = self.free[i];
            let rem = o % align;
            let pad = if rem == 0 {
                0
            } else {
                align - rem
            };
            assert(pad == pad_for(o as int, align as int));
            if pad <= l && size <= l - pad {
                return Some(i);
            }
            i += 1;
        }
        None
    }

    /// Takes `size` bytes at the first multiple of `align` in the free range
    /// at `i`, which can hold them.
    #[verifier::rlimit(40)]
    fn take_at(&mut self, i: usize, size: u64, align: u64) -> (start: u64)
        requires
            old(self).wf(),
            size > 0,
            align > 0,
            0 <= i < old(self).free_ranges().len(),
            fits(old(self).free_ranges()[i as int], size as int, align as int),
        ensures
            final(self).wf(),
            final(self).cap() == old(self).cap(),
            start as int % align as int == 0,
            start == old(self).free_ranges()[i as int].0 + pad_for(
                old(self).free_ranges()[i as int].0 as int,
                align as int,
            ),
            span(start as int, start + size).subset_of(old(self).free_set()),
            final(self).free_set() == old(self).free_set().difference(span(start as int, start + size)),
            final(self).free_total() == old(self).free_total() - size,
    {
        let ghost s = self.free@;
        let ghost cap = self.capacity as int;
        let (o, l) = self.free[i];
        let rem = o % align;
        let pad = if rem == 0 {
            0
        } else {
            align - rem
        };
        assert(pad == pad_for(o as int, align as int));
        let start = o + pad;
        let tail = l - pad - size;
        let end_taken: u64 = start + size;
        let n: usize = self.free.len();
        let next: usize = i + 1;
        proof {
            lemma_pad_aligns(o as int, align as int);
            lemma_split_at(s, i as int);
            lemma_sides(s, cap, i as int);
            lemma_sub_spaced(s, cap, i as int);
            lemma_sub_spaced(s, cap, i + 1);
            lemma_addresses_empty();
            lemma_total_concat(Seq::empty(), Seq::empty());
            if i > 0 {
                assert(s.take(i as int).last() == s[i - 1]);
            }
            if i + 1 < s.len() {
                assert(s.skip(i + 1)[0] == s[i + 1]);
            }
        }
        let ghost before = s.take(i as int);
        let ghost after = s.skip(i + 1);
        let ghost taken = span(start as int, start + size);
        if pad > 0 {
            self.free[i] = (o, pad);
            if tail > 0 {
                self.free.insert(next, (end_taken, tail));
                proof {
                    let rest = seq![(end_taken, tail)] + after;
                    assert(self.free@ =~= before + seq![(o, pad)] + rest);
                    assert(rest =~= Seq::empty() + seq![(end_taken, tail)] + after);
                    lemma_parts(Seq::empty(), (end_taken, tail), after);
                    lemma_parts_spaced(Seq::empty(), (end_taken, tail), after, cap);
                    lemma_parts(before, (o, pad), rest);
                    assert(rest[0] == (end_taken, tail));
                    lemma_parts_spaced(before, (o, pad), rest, cap);
                }
            } else {
                proof {
                    assert(self.free@ =~= before + seq![(o, pad)] + after);
                    lemma_parts(before, (o, pad), after);
                    lemma_parts_spaced(before, (o, pad), after, cap);
                }
            }
        } else if tail > 0 {
            self.free[i] = (end_taken, tail);
            proof {
                assert(self.free@ =~= before + seq![(end_taken, tail)] + after);
                lemma_parts(before, (end_taken, tail), after);
                lemma_parts_spaced(before, (end_taken, tail), after, cap);
            }
        } else {
            self.free.remove(i);
            proof {
                assert(self.free@ =~= before + after);
                lemma_addresses_concat(before, after);
                lemma_total_concat(before, after);
                lemma_sub_spaced(s, cap, i as int);
                assert(well_spaced(before + after, cap)) by {
                    let t = before + after;
                    let n = before.len() as int;
                    assert forall|k: int, j: int| 0 <= k < j < t.len() implies range_end(
                        #[trigger] t[k],
                    ) < (#[trigger] t[j]).0 by {
                        let k2 = if k < n { k } else { k + 1 };
                        let j2 = if j < n { j } else { j + 1 };
                        assert(t[k] == s[k2] && t[j] == s[j2]);
                    }
                    assert forall|k: int| 0 <= k < t.len() implies (#[trigger] t[k]).1 > 0
                        && range_end(t[k]) <= cap by {
                        let k2 = if k < n { k } else { k + 1 };
                        assert(t[k] == s[k2]);
                    }
                }
            }
        }
        proof {
            assert(self.free_set() =~= addresses(s).difference(taken));
        }
        start
    }

    /// The number of free bytes.
    pub fn free_bytes(&self) -> (r: u64)
        requires
            self.wf(),
        ensures
            r == self.free_total(),
    {
        let ghost s = self.free@;
        let n: usize = self.free.len();
        let mut sum: u64 = 0;
        let mut i: usize = 0;
        while i < n
            invariant
                self.free@ == s,
                n == s.len(),
                0 <= i <= n,
                well_spaced(s, self.capacity as int),
                sum == total_len(s.take(i as int)),
            decreases n - i,
        {
            proof {
                lemma_sub_spaced(s, self.capacity as int, i + 1);
                lemma_total_bound(s.take(i + 1), self.capacity as int);
                assert(s.take(i + 1).drop_last() =~= s.take(i as int));
                assert(s.take(i + 1).last() == s[i as int]);
            }
            sum = sum + self.free[i].1;
            i += 1;
        }
        assert(s.take(n as int) =~= s);
        sum
    }

    /// The length of the longest free range, 0 where none is free.
    pub fn largest_free(&self) -> (r: u64)
        ensures
            r == largest_len(self.free_ranges()),
    {
        let ghost s = self.free@;
        let n: usize = self.free.len();
        let mut best: u64 = 0;
        let mut i: usize = 0;
        while i < n
            invariant
                self.free@ == s,
                n == s.len(),
                0 <= i <= n,
                best == largest_len(s.take(i as int)),
            decreases n - i,
        {
            assert(s.take(i + 1).drop_last() =~= s.take(i as int));
            assert(s.take(i + 1).last() == s[i as int]);
            if self.free[i].1 > best {
                best = self.free[i].1;
            }
            i += 1;
        }
        assert(s.take(n as int) =~= s);
        best
    }

    /// The number of free ranges.
    pub fn range_count(&self) -> (r: usize)
        ensures
            r == self.free_ranges().len(),
    {
        self.free.len()
    }

    /// Returns `[offset, offset + size)` to the free space, merged into one
    /// range with a free range that ends at `offset` and with one that starts
    /// at `offset + size`. Refused, with nothing changed, where the range is
    /// empty, leaves the space, or holds an address that is already free.
    pub fn release(&mut self, offset: u64, size: u64) -> (r: Result<(), AllocError>)
        requires
            old(self).wf(),
        ensures
            final(self).wf(),
            final(self).cap() == old(self).cap(),
            r is Ok <==> size > 0 && offset + size <= old(self).cap() && span(
                offset as int,
                offset + size,
            ).disjoint(old(self).free_set()),
            r is Err ==> r == Err::<(), AllocError>(AllocError::InvalidConfiguration),
            r is Err ==> final(self).free_ranges() == old(self).free_ranges(),
            r is Ok ==> final(self).free_set() == old(self).free_set().union(
                span(offset as int, offset + size),
            ),
            r is Ok ==> final(self).free_total() == old(self).free_total() + size,
    {
        let ghost s = self.free@;
        let ghost cap = self.capacity as int;
        let ghost freed = span(offset as int, offset + size);
        if size == 0 || size > self.capacity || offset > self.capacity - size {
            return Err(AllocError::InvalidConfiguration);
        }
        let n: usize = self.free.len();
        let mut p: usize = 0;
        while p < n && self.free[p].0 < offset
            invariant
                self.free@ == s,
                n == s.len(),
                0 <= p <= n,
                forall|j: int| 0 <= j < p ==> (#[trigger] s[j]).0 < offset,
            decreases n - p,
        {
            p += 1;
        }
        if p > 0 && self.free[p - 1].0 + self.free[p - 1].1 > offset {
            proof {
                assert(s[p - 1].0 < offset);
                assert(freed.contains(offset as int) && covers(s, offset as int));
            }
            return Err(AllocError::InvalidConfiguration);
        }
        if p < n && offset + size > self.free[p].0 {
            proof {
                assert(freed.contains(s[p as int].0 as int) && covers(s, s[p as int].0 as int));
            }
            return Err(AllocError::InvalidConfiguration);
        }
        proof {
            assert forall|x: int| freed.contains(x) implies !(#[trigger] addresses(s).contains(x)) by {
                if covers(s, x) {
                    let j = choose|j: int| 0 <= j < s.len() && (#[trigger] s[j]).0 <= x < range_end(s[j]);
                    if j < p {
                        if j < p - 1 {
                            assert(range_end(s[j]) < s[p - 1].0);
                        }
                    } else {
                        if j > p {
                            assert(range_end(s[p as int]) < s[j].0);
                        }
                    }
                }
            }
            assert(slot_between(s, p as int, offset as int, size as int));
        }
        let merge_prev = p > 0 && self.free[p - 1].0 + self.free[p - 1].1 == offset;
        let merge_next = p < n && offset + size == self.free[p].0;
        if merge_prev && merge_next {
            self.join_both(p, offset, size);
        } else if merge_prev {
            self.join_prev(p, offset, size);
        } else if merge_next {
            self.join_next(p, offset, size);
        } else {
            self.insert_alone(p, offset, size);
        }
        Ok(())
    }

    /// Merges the range with the free ranges on both sides of it.
    fn join_both(&mut self, p: usize, offset: u64, size: u64)
        requires
            old(self).wf(),
            slot_between(old(self).free_ranges(), p as int, offset as int, size as int),
            offset + size <= old(self).cap(),
            0 < p < old(self).free_ranges().len(),
            range_end(old(self).free_ranges()[p - 1]) == offset,
            offset + size == old(self).free_ranges()[p as int].0,
        ensures
            final(self).wf(),
            final(self).cap() == old(self).cap(),
            final(self).free_set() == old(self).free_set().union(span(offset as int, offset + size)),
            final(self).free_total() == old(self).free_total() + size,
    {
        let ghost s = self.free@;
        let ghost cap = self.capacity as int;
        let ghost freed = span(offset as int, offset + size);
        let n: usize = self.free.len();
        proof {
            lemma_sub_spaced(s, cap, p as int);
            lemma_total_bound(s, cap);
        }
        let (po, pl) = self.free[p - 1];
        let nl = self.free[p].1;
        let m = (po, pl + size + nl);
        self.free[p - 1] = m;
        self.free.remove(p);
        proof {
            let a = s.take(p - 1);
            let b = s.skip(p + 1);
            lemma_sub_spaced(s, cap, p - 1);
            lemma_sub_spaced(s, cap, p + 1);
            assert(s =~= a + seq![s[p - 1]] + (Seq::empty() + seq![s[p as int]] + b));
            lemma_parts(a, s[p - 1], Seq::empty() + seq![s[p as int]] + b);
            lemma_parts(Seq::empty(), s[p as int], b);
            lemma_addresses_empty();
            lemma_total_concat(Seq::empty(), Seq::empty());
            assert(self.free@ =~= a + seq![m] + b);
            lemma_parts(a, m, b);
            if p >= 2 {
                assert(a.last() == s[p - 2]);
                assert(range_end(s[p - 2]) < s[p - 1].0);
            }
            if p + 1 < n {
                assert(b[0] == s[p + 1]);
                assert(range_end(s[p as int]) < s[p + 1].0);
            }
            lemma_parts_spaced(a, m, b, cap);
            assert(span(m.0 as int, range_end(m)) =~= span(s[p - 1].0 as int, range_end(s[p - 1])).union(
                freed).union(span(s[p as int].0 as int, range_end(s[p as int]))));
            assert(self.free_set() =~= addresses(s).union(freed));
        }
    }

    /// Extends the free range that ends where the range starts.
    fn join_prev(&mut self, p: usize, offset: u64, size: u64)
        requires
            old(self).wf(),
            slot_between(old(self).free_ranges(), p as int, offset as int, size as int),
            offset + size <= old(self).cap(),
            0 < p,
            range_end(old(self).free_ranges()[p - 1]) == offset,
            p < old(self).free_ranges().len() ==> offset + size < old(self).free_ranges()[p as int].0,
        ensures
            final(self).wf(),
            final(self).cap() == old(self).cap(),
            final(self).free_set() == old(self).free_set().union(span(offset as int, offset + size)),
            final(self).free_total() == old(self).free_total() + size,
    {
        let ghost s = self.free@;
        let ghost cap = self.capacity as int;
        let ghost freed = span(offset as int, offset + size);
        let n: usize = self.free.len();
        proof {
            lemma_sub_spaced(s, cap, p as int);
            lemma_total_bound(s, cap);
        }
        let (po, pl) = self.free[p - 1];
        let m = (po, pl + size);
        self.free[p - 1] = m;
        proof {
            let a = s.take(p - 1);
            let b = s.skip(p as int);
            lemma_sub_spaced(s, cap, p - 1);
            lemma_split_at(s, p - 1);
            assert(self.free@ =~= a + seq![m] + b);
            lemma_parts(a, m, b);
            if p >= 2 {
                assert(a.last() == s[p - 2]);
                assert(range_end(s[p - 2]) < s[p - 1].0);
            }
            if p < n {
                assert(b[0] == s[p as int]);
            }
            lemma_parts_spaced(a, m, b, cap);
            assert(span(m.0 as int, range_end(m)) =~= span(s[p - 1].0 as int, range_end(s[p - 1])).union(
                freed));
            assert(self.free_set() =~= addresses(s).union(freed));
        }
    }

    /// Extends the free range that starts where the range ends back over it.
    fn join_next(&mut self, p: usize, offset: u64, size: u64)
        requires
            old(self).wf(),
            slot_between(old(self).free_ranges(), p as int, offset as int, size as int),
            offset + size <= old(self).cap(),
            p < old(self).free_ranges().len(),
            p > 0 ==> range_end(old(self).free_ranges()[p - 1]) < offset,
            offset + size == old(self).free_ranges()[p as int].0,
        ensures
            final(self).wf(),
            final(self).cap() == old(self).cap(),
            final(self).free_set() == old(self).free_set().union(span(offset as int, offset + size)),
            final(self).free_total() == old(self).free_total() + size,
    {
        let ghost s = self.free@;
        let ghost cap = self.capacity as int;
        let ghost freed = span(offset as int, offset + size);
        let n: usize = self.free.len();
        proof {
            lemma_sub_spaced(s, cap, p as int);
            lemma_total_bound(s, cap);
        }
        let nl = self.free[p].1;
        let m = (offset, size + nl);
        self.free[p] = m;
        proof {
            let a = s.take(p as int);
            let b = s.skip(p + 1);
            lemma_sub_spaced(s, cap, p + 1);
            lemma_split_at(s, p as int);
            assert(self.free@ =~= a + seq![m] + b);
            lemma_parts(a, m, b);
            if p >= 1 {
                assert(a.last() == s[p - 1]);
            }
            if p + 1 < n {
                assert(b[0] == s[p + 1]);
                assert(range_end(s[p as int]) < s[p + 1].0);
            }
            lemma_parts_spaced(a, m, b, cap);
            assert(span(m.0 as int, range_end(m)) =~= freed.union(
                span(s[p as int].0 as int, range_end(s[p as int]))));
            assert(self.free_set() =~= addresses(s).union(freed));
        }
    }

    /// Adds the range as a free range of its own, touching no other.
    fn insert_alone(&mut self, p: usize, offset: u64, size: u64)
        requires
            old(self).wf(),
            slot_between(old(self).free_ranges(), p as int, offset as int, size as int),
            offset + size <= old(self).cap(),
            p > 0 ==> range_end(old(self).free_ranges()[p - 1]) < offset,
            p < old(self).free_ranges().len() ==> offset + size < old(self).free_ranges()[p as int].0,
        ensures
            final(self).wf(),
            final(self).cap() == old(self).cap(),
            final(self).free_set() == old(self).free_set().union(span(offset as int, offset + size)),
            final(self).free_total() == old(self).free_total() + size,
    {
        let ghost s = self.free@;
        let ghost cap = self.capacity as int;
        let ghost freed = span(offset as int, offset + size);
        let n: usize = self.free.len();
        proof {
            lemma_sub_spaced(s, cap, p as int);
            lemma_total_bound(s, cap);
        }
        self.free.insert(p, (offset, size));
        proof {
            let a = s.take(p as int);
            let b = s.skip(p as int);
            assert(s =~= a + b);
            lemma_addresses_concat(a, b);
            lemma_total_concat(a, b);
            assert(self.free@ =~= a + seq![(offset, size)] + b);
            lemma_parts(a, (offset, size), b);
            if p >= 1 {
                assert(a.last() == s[p - 1]);
            }
            if p < n {
                assert(b[0] == s[p as int]);
            }
            lemma_parts_spaced(a, (offset, size), b, cap);
            assert(self.free_set() =~= addresses(s).union(freed));
        }
    }
}

} // verus!
