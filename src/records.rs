//! The allocation record store: slots that hold the record of each live
//! allocation. A slot's index is the allocation's handle; a slot is reused
//! only after its record was removed.
use vstd::prelude::*;

use crate::error::AllocError;

verus! {

/// What is known of one live allocation.
#[derive(Clone, Copy, Debug, PartialEq, Eq, Structural)]
pub struct Record {
    pub offset: u64,
    pub size: u64,
    /// The alignment asked for; 0 stands for the least alignment, 1.
    pub alignment: u64,
    /// The caller's payload, kept as given.
    pub user_data: usize,
}

/// `f` summed over the records held in `s`.
pub open spec fn slot_sum(s: Seq<Option<Record>>, f: spec_fn(Record) -> int) -> int
    decreases s.len(),
{
    if s.len() == 0 {
        0
    } else {
        slot_sum(s.drop_last(), f) + match s.last() {
            Some(r) => f(r),
            None => 0,
        }
    }
}

/// The summed sizes of the records in `s`.
pub open spec fn used_of(s: Seq<Option<Record>>) -> int {
    slot_sum(s, |r: Record| r.size as int)
}

/// The number of records in `s`.
pub open spec fn live_of(s: Seq<Option<Record>>) -> int {
    slot_sum(s, |r: Record| 1)
}

/// The records of `s`, in slot order.
pub open spec fn records_of(s: Seq<Option<Record>>) -> Seq<Record>
    decreases s.len(),
{
    if s.len() == 0 {
        Seq::empty()
    } else {
        records_of(s.drop_last()) + match s.last() {
            Some(r) => seq![r],
            None => Seq::empty(),
        }
    }
}

/// The first empty slot of `s`, or its length where every slot is taken.
pub open spec fn first_free(s: Seq<Option<Record>>, h: int) -> bool {
    &&& 0 <= h <= s.len()
    &&& h < s.len() ==> s[h] is None
    &&& forall|k: int| 0 <= k < h ==> (#[trigger] s[k]) is Some
}

/// `s` with `r` put into slot `h`, which is empty or one past the end.
pub open spec fn put(s: Seq<Option<Record>>, h: int, r: Record) -> Seq<Option<Record>> {
    if h < s.len() {
        s.update(h, Some(r))
    } else {
        s.push(Some(r))
    }
}

pub proof fn lemma_slot_sum_update(
    s: Seq<Option<Record>>,
    i: int,
    v: Option<Record>,
    f: spec_fn(Record) -> int,
)
    requires
        0 <= i < s.len(),
    ensures
        slot_sum(s.update(i, v), f) == slot_sum(s, f) - (match s[i] {
            Some(r) => f(r),
            None => 0,
        }) + (match v {
            Some(r) => f(r),
            None => 0,
        }),
    decreases s.len(),
{
    if i == s.len() - 1 {
        assert(s.update(i, v).drop_last() =~= s.drop_last());
    } else {
        lemma_slot_sum_update(s.drop_last(), i, v, f);
        assert(s.update(i, v).drop_last() =~= s.drop_last().update(i, v));
    }
}

pub proof fn lemma_slot_sum_push(s: Seq<Option<Record>>, v: Option<Record>, f: spec_fn(Record) -> int)
    ensures
        slot_sum(s.push(v), f) == slot_sum(s, f) + (match v {
            Some(r) => f(r),
            None => 0,
        }),
{
    assert(s.push(v).drop_last() =~= s);
}

/// Putting `r` into a free slot adds its size and one record.
pub proof fn lemma_put(s: Seq<Option<Record>>, h: int, r: Record)
    requires
        first_free(s, h),
    ensures
        used_of(put(s, h, r)) == used_of(s) + r.size,
        live_of(put(s, h, r)) == live_of(s) + 1,
{
    if h < s.len() {
        lemma_slot_sum_update(s, h, Some(r), |r: Record| r.size as int);
        lemma_slot_sum_update(s, h, Some(r), |r: Record| 1);
    } else {
        lemma_slot_sum_push(s, Some(r), |r: Record| r.size as int);
        lemma_slot_sum_push(s, Some(r), |r: Record| 1);
    }
}

/// Emptying slot `h`, which holds a record, takes away its size and one record.
pub proof fn lemma_take(s: Seq<Option<Record>>, h: int)
    requires
        0 <= h < s.len(),
        s[h] is Some,
    ensures
        used_of(s.update(h, None)) == used_of(s) - s[h]->Some_0.size,
        live_of(s.update(h, None)) == live_of(s) - 1,
{
    lemma_slot_sum_update(s, h, None, |r: Record| r.size as int);
    lemma_slot_sum_update(s, h, None, |r: Record| 1);
}

/// A sum of non-negative terms over slots with no record is zero, and
/// over any slots it is not negative.
pub proof fn lemma_slot_sum_empty(s: Seq<Option<Record>>, f: spec_fn(Record) -> int)
    requires
        forall|r: Record| #[trigger] f(r) >= 0,
    ensures
        slot_sum(s, f) >= 0,
        (forall|k: int| 0 <= k < s.len() ==> (#[trigger] s[k]) is None) ==> slot_sum(s, f) == 0,
    decreases s.len(),
{
    if s.len() > 0 {
        lemma_slot_sum_empty(s.drop_last(), f);
        if forall|k: int| 0 <= k < s.len() ==> (#[trigger] s[k]) is None {
            assert forall|k: int| 0 <= k < s.drop_last().len() implies (#[trigger] s.drop_last()[k])
                is None by {
                assert(s.drop_last()[k] == s[k]);
            }
            assert(s.last() == s[s.len() - 1]);
        }
    }
}

/// The records of live allocations, by slot.
pub struct RecordStore {
    slots: Vec<Option<Record>>,
}

impl RecordStore {
    pub closed spec fn slots(&self) -> Seq<Option<Record>> {
        self.slots@
    }

    /// A store with no record.
    pub fn new() -> (r: Self)
        ensures
            r.slots() == Seq::<Option<Record>>::empty(),
    {
        RecordStore { slots: Vec::new() }
    }

    /// Stores `r` in the first empty slot, or in a new one where every slot
    /// is taken, and returns that slot.
    pub fn insert(&mut self, r: Record) -> (h: usize)
        ensures
            first_free(old(self).slots(), h as int),
            final(self).slots() == put(old(self).slots(), h as int, r),
    {
        let n: usize = self.slots.len();
        let mut h: usize = 0;
        while h < n
            invariant
                n == self.slots@.len(),
                self.slots@ == old(self).slots@,
                0 <= h <= n,
                forall|k: int| 0 <= k < h ==> (#[trigger] self.slots@[k]) is Some,
            decreases n - h,
        {
            if self.slots[h].is_none() {
                self.slots.set(h, Some(r));
                return h;
            }
            h += 1;
        }
        self.slots.push(Some(r));
        h
    }

    /// The record in slot `h`.
    pub fn get(&self, h: usize) -> (r: Result<Record, AllocError>)
        ensures
            r is Ok <==> h < self.slots().len() && self.slots()[h as int] is Some,
            r matches Ok(rec) ==> self.slots()[h as int] == Some(rec),
            r is Err ==> r == Err::<Record, AllocError>(AllocError::UnknownHandle),
    {
        if h < self.slots.len() {
            match self.slots[h] {
                Some(rec) => Ok(rec),
                None => Err(AllocError::UnknownHandle),
            }
        } else {
            Err(AllocError::UnknownHandle)
        }
    }

    /// Takes the record out of slot `h`, which becomes empty.
    pub fn remove(&mut self, h: usize) -> (r: Result<Record, AllocError>)
        ensures
            r is Ok <==> h < old(self).slots().len() && old(self).slots()[h as int] is Some,
            r matches Ok(rec) ==> old(self).slots()[h as int] == Some(rec) && final(self).slots()
                == old(self).slots().update(h as int, None),
            r is Err ==> r == Err::<Record, AllocError>(AllocError::UnknownHandle),
            r is Err ==> final(self).slots() == old(self).slots(),
    {
        let got = self.get(h);
        if let Ok(rec) = got {
            self.slots.set(h, None);
            Ok(rec)
        } else {
            got
        }
    }

    /// Takes every record out, in slot order, and leaves no slot.
    pub fn clear_all(&mut self) -> (r: Vec<Record>)
        ensures
            r@ == records_of(old(self).slots()),
            final(self).slots() == Seq::<Option<Record>>::empty(),
    {
        let ghost s = self.slots@;
        let mut out: Vec<Record> = Vec::new();
        let n: usize = self.slots.len();
        let mut i: usize = 0;
        while i < n
            invariant
                self.slots@ == s,
                n == s.len(),
                0 <= i <= n,
                out@ == records_of(s.take(i as int)),
            decreases n - i,
        {
            assert(s.take(i + 1).drop_last() =~= s.take(i as int));
            assert(s.take(i + 1).last() == s[i as int]);
            if let Some(rec) = self.slots[i] {
                out.push(rec);
            }
            i += 1;
            assert(out@ =~= records_of(s.take(i as int)));
        }
        assert(s.take(n as int) =~= s);
        self.slots.clear();
        out
    }

    /// The number of records.
    pub fn live(&self) -> (r: usize)
        ensures
            r == live_of(self.slots()),
    {
        let ghost s = self.slots@;
        let n: usize = self.slots.len();
        let mut count: usize = 0;
        let mut i: usize = 0;
        while i < n
            invariant
                self.slots@ == s,
                n == s.len(),
                0 <= count <= i <= n,
                count == live_of(s.take(i as int)),
            decreases n - i,
        {
            assert(s.take(i + 1).drop_last() =~= s.take(i as int));
            assert(s.take(i + 1).last() == s[i as int]);
            if self.slots[i].is_some() {
                count += 1;
            }
            i += 1;
        }
        assert(s.take(n as int) =~= s);
        count
    }
}

} // verus!
