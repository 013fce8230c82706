//! A stable arena: an ordered, addressable collection with push-to-back
//! insertion, removal by stable id, and front-to-back traversal in
//! insertion order.
//!
//! Records live in a slot vector; a free list recycles vacated slots and a
//! per-slot generation counter is bumped on removal, so a stale id (one
//! whose record was removed) is detected instead of silently aliasing a
//! newer record in the same slot.

use vstd::prelude::*;

verus! {

/// An opaque, copyable handle to one live arena record: a slot index plus
/// the generation the slot had when the record was inserted.  Removing the
/// record invalidates the id without affecting any other id.
#[derive(Clone, Copy, PartialEq, Eq, Structural, Debug, Hash)]
pub struct StableId {
    pub slot: usize,
    pub gen: u64,
}

struct ArenaSlot<T> {
    gen: u64,
    value: Option<T>,
}

/// Ordered collection addressable by `StableId`.  The view is the sequence
/// of `(id, value)` pairs in insertion order.
pub struct StableArena<T> {
    slots: Vec<ArenaSlot<T>>,
    free: Vec<usize>,
    order: Vec<StableId>,
}

impl<T> StableArena<T> {
    /// The ids of the live records, oldest first.
    pub closed spec fn ids(self) -> Seq<StableId> {
        self.order@
    }

    /// Whether `id` addresses a live record.
    pub open spec fn has_id(self, id: StableId) -> bool {
        self.ids().contains(id)
    }

    /// The value addressed by `id` (meaningful only when `has_id(id)`).
    pub closed spec fn value_at(self, id: StableId) -> T {
        self.slots@[id.slot as int].value.unwrap()
    }

    /// The live records, oldest first, as `(id, value)` pairs.
    pub open spec fn view(self) -> Seq<(StableId, T)> {
        Seq::new(self.ids().len(), |i: int| (self.ids()[i], self.value_at(self.ids()[i])))
    }

    spec fn id_valid(self, id: StableId) -> bool {
        &&& id.slot < self.slots@.len()
        &&& self.slots@[id.slot as int].value is Some
        &&& self.slots@[id.slot as int].gen == id.gen
    }

    spec fn order_has_slot(self, s: int) -> bool {
        exists|i: int| 0 <= i < self.order@.len() && (#[trigger] self.order@[i]).slot == s
    }

    /// Internal well-formedness: every listed id addresses an occupied slot
    /// of matching generation, listed slots are distinct, every occupied
    /// slot is listed, and the free list holds distinct vacant slots.
    pub closed spec fn wf(self) -> bool {
        &&& forall|i: int| 0 <= i < self.order@.len() ==> self.id_valid(#[trigger] self.order@[i])
        &&& forall|i: int, j: int|
            0 <= i < j < self.order@.len() ==> (#[trigger] self.order@[i]).slot != (
            #[trigger] self.order@[j]).slot
        &&& forall|s: int|
            0 <= s < self.slots@.len() && (#[trigger] self.slots@[s]).value is Some
                ==> self.order_has_slot(s)
        &&& forall|i: int|
            0 <= i < self.free@.len() ==> (#[trigger] self.free@[i]) < self.slots@.len()
                && self.slots@[self.free@[i] as int].value is None
        &&& forall|i: int, j: int|
            0 <= i < j < self.free@.len() ==> (#[trigger] self.free@[i]) != (
            #[trigger] self.free@[j])
    }

    /// Distinct live records always have distinct ids.
    pub proof fn lemma_ids_distinct(self)
        requires
            self.wf(),
        ensures
            forall|i: int, j: int|
                0 <= i < j < self.ids().len() ==> self.ids()[i] != self.ids()[j],
    {
        assert forall|i: int, j: int|
            0 <= i < j < self.ids().len() implies self.ids()[i] != self.ids()[j] by {
            assert(self.order@[i].slot != self.order@[j].slot);
        }
    }

    /// An empty arena.
    pub fn new() -> (r: Self)
        ensures
            r.wf(),
            r@ == Seq::<(StableId, T)>::empty(),
    {
        let r = StableArena { slots: Vec::new(), free: Vec::new(), order: Vec::new() };
        proof {
            assert(r@ =~= Seq::<(StableId, T)>::empty());
        }
        r
    }

    /// Number of live records.
    pub fn len(&self) -> (n: usize)
        ensures
            n == self@.len(),
    {
        self.order.len()
    }

    /// Append `value` to the back; the returned id is fresh: it addressed
    /// nothing before the call and addresses the new record after it.
    pub fn insert(&mut self, value: T) -> (id: StableId)
        requires
            old(self).wf(),
        ensures
            final(self).wf(),
            !old(self).has_id(id),
            final(self).ids() == old(self).ids().push(id),
            final(self)@ == old(self)@.push((id, value)),
            final(self).value_at(id) == value,
    {
        let slot_idx: usize = match self.free.pop() {
            Some(s) => s,
            None => {
                let s = self.slots.len();
                self.slots.push(ArenaSlot { gen: 0, value: None });
                s
            },
        };
        let g = self.slots[slot_idx].gen;
        let id = StableId { slot: slot_idx, gen: g };
        let slot_ref = &mut self.slots[slot_idx];
        slot_ref.value = Some(value);
        self.order.push(id);
        proof {
            let pre = old(self);
            assert(forall|i: int|
                0 <= i < pre.order@.len() ==> (#[trigger] pre.order@[i]).slot != slot_idx as int);
            assert(self@ =~= pre@.push((id, value))) by {
                assert(forall|i: int|
                    0 <= i < pre.order@.len() ==> self.value_at(#[trigger] pre.order@[i])
                        == pre.value_at(pre.order@[i]));
            }
            assert forall|s: int|
                0 <= s < self.slots@.len() && (#[trigger] self.slots@[s]).value is Some
                    implies self.order_has_slot(s) by {
                if s == slot_idx as int {
                    assert(self.order@[self.order@.len() - 1].slot == s);
                } else {
                    assert(pre.order_has_slot(s));
                    let i = choose|i: int|
                        0 <= i < pre.order@.len() && (#[trigger] pre.order@[i]).slot == s;
                    assert(self.order@[i].slot == s);
                }
            }
        }
        id
    }

    /// Remove the record addressed by `id`, if it is still present; `None`
    /// if the id is stale.  No other record or id is affected.
    pub fn remove(&mut self, id: StableId) -> (r: Option<T>)
        requires
            old(self).wf(),
        ensures
            final(self).wf(),
            old(self).has_id(id) ==> {
                &&& r == Some(old(self).value_at(id))
                &&& final(self).ids() == old(self).ids().remove(old(self).ids().index_of(id))
                &&& final(self)@ == old(self)@.remove(old(self).ids().index_of(id))
            },
            !old(self).has_id(id) ==> r is None && *final(self) == *old(self),
            !final(self).has_id(id),
    {
        if id.slot >= self.slots.len() {
            proof {
                assert(!old(self).has_id(id));
                assert(*self == *old(self));
            }
            return None;
        }
        let valid = self.slots[id.slot].value.is_some() && self.slots[id.slot].gen == id.gen;
        if !valid {
            proof {
                assert(!old(self).has_id(id)) by {
                    if old(self).has_id(id) {
                        let i = old(self).ids().index_of(id);
                        assert(old(self).id_valid(old(self).order@[i]));
                    }
                }
            }
            return None;
        }
        proof {
            assert(old(self).order_has_slot(id.slot as int));
            let i = choose|i: int|
                0 <= i < old(self).order@.len() && (#[trigger] old(self).order@[i]).slot
                    == id.slot as int;
            assert(old(self).id_valid(old(self).order@[i]));
            assert(old(self).order@[i] == id);
            assert(old(self).has_id(id));
        }
        let ghost pre = *old(self);
        let n = self.order.len();
        let mut j: usize = 0;
        while self.order[j].slot != id.slot
            invariant
                *self == pre,
                pre.wf(),
                n == pre.order@.len(),
                j < n,
                forall|k: int| 0 <= k < j ==> (#[trigger] pre.order@[k]).slot != id.slot as int,
                exists|i: int|
                    j <= i < pre.order@.len() && (#[trigger] pre.order@[i]).slot == id.slot as int,
            decreases pre.order@.len() - j,
        {
            j = j + 1;
            proof {
                let i = choose|i: int|
                    j - 1 <= i < pre.order@.len() && (#[trigger] pre.order@[i]).slot
                        == id.slot as int;
                assert(i >= j);
            }
        }
        proof {
            assert(pre.order@[j as int].slot == id.slot as int);
            assert(pre.id_valid(pre.order@[j as int]));
            assert(pre.order@[j as int] == id);
            // j is the first (and only) index holding id
            assert(pre.ids().index_of(id) == j as int) by {
                let i0 = pre.ids().index_of(id);
                assert(pre.ids().contains(id));
                assert(pre.ids()[i0] == id);
                if i0 < j as int {
                    assert(pre.order@[i0].slot == id.slot as int);
                } else if i0 > j as int {
                    assert(pre.order@[j as int].slot == pre.order@[i0].slot);
                }
            }
        }
        self.order.remove(j);
        let slot_ref = &mut self.slots[id.slot];
        let taken = slot_ref.value.take();
        if slot_ref.gen < u64::MAX {
            slot_ref.gen = slot_ref.gen + 1;
            self.free.push(id.slot);
        }
        proof {
            let jj = j as int;
            assert(self.order@ =~= pre.order@.remove(jj));
            // remaining ids valid and distinct
            assert forall|i: int| 0 <= i < self.order@.len() implies self.id_valid(
                #[trigger] self.order@[i]) by {
                let oi = if i < jj { i } else { i + 1 };
                assert(pre.order@[oi] == self.order@[i]);
                assert(pre.id_valid(pre.order@[oi]));
                assert(pre.order@[oi].slot != id.slot as int || oi == jj);
            }
            assert forall|i: int, k: int| 0 <= i < k < self.order@.len() implies (
            #[trigger] self.order@[i]).slot != (#[trigger] self.order@[k]).slot by {
                let oi = if i < jj { i } else { i + 1 };
                let ok = if k < jj { k } else { k + 1 };
                assert(pre.order@[oi] == self.order@[i]);
                assert(pre.order@[ok] == self.order@[k]);
            }
            assert forall|s: int|
                0 <= s < self.slots@.len() && (#[trigger] self.slots@[s]).value is Some
                    implies self.order_has_slot(s) by {
                assert(pre.slots@[s].value is Some);
                assert(pre.order_has_slot(s));
                let i = choose|i: int|
                    0 <= i < pre.order@.len() && (#[trigger] pre.order@[i]).slot == s;
                assert(s != id.slot as int);
                assert(i != jj);
                let ni = if i < jj { i } else { i - 1 };
                assert(self.order@[ni].slot == s);
            }
            assert forall|i: int|
                0 <= i < self.free@.len() implies (#[trigger] self.free@[i]) < self.slots@.len()
                    && self.slots@[self.free@[i] as int].value is None by {
                if i < pre.free@.len() {
                    assert(pre.free@[i] == self.free@[i]);
                    assert(pre.slots@[self.free@[i] as int].value is None);
                    assert(self.free@[i] != id.slot as int);
                }
            }
            assert forall|i: int, k: int| 0 <= i < k < self.free@.len() implies (
            #[trigger] self.free@[i]) != (#[trigger] self.free@[k]) by {
                if k == pre.free@.len() {
                    // the newly pushed slot was occupied before, so it was not free
                    assert(pre.slots@[pre.free@[i] as int].value is None);
                }
            }
            assert(self@ =~= pre@.remove(jj)) by {
                assert forall|i: int| 0 <= i < self.order@.len() implies self.value_at(
                    #[trigger] self.order@[i]) == pre.value_at(self.order@[i]) by {
                    let oi = if i < jj { i } else { i + 1 };
                    assert(pre.order@[oi] == self.order@[i]);
                    assert(self.order@[i].slot != id.slot as int);
                }
            }
            assert(!self.has_id(id)) by {
                if self.has_id(id) {
                    let i = choose|i: int|
                        0 <= i < self.order@.len() && #[trigger] self.order@[i] == id;
                    assert(self.id_valid(self.order@[i]));
                }
            }
        }
        taken
    }

    /// The id of the oldest record, or `None` if the arena is empty.
    pub fn front_id(&self) -> (r: Option<StableId>)
        ensures
            self@.len() > 0 ==> r == Some(self@[0].0),
            self@.len() == 0 ==> r is None,
    {
        if self.order.len() == 0 {
            None
        } else {
            Some(self.order[0])
        }
    }

    /// A reference to the oldest record's value, without removing it.
    pub fn front(&self) -> (r: Option<&T>)
        requires
            self.wf(),
        ensures
            self@.len() > 0 ==> r == Some(&self@[0].1),
            self@.len() == 0 ==> r is None,
    {
        if self.order.len() == 0 {
            None
        } else {
            let id = self.order[0];
            proof {
                assert(self.id_valid(self.order@[0]));
            }
            Some(self.slots[id.slot].value.as_ref().unwrap())
        }
    }

    /// Remove and return the oldest record together with its id.
    pub fn pop_front(&mut self) -> (r: Option<(StableId, T)>)
        requires
            old(self).wf(),
        ensures
            final(self).wf(),
            old(self)@.len() > 0 ==> {
                &&& r == Some(old(self)@[0])
                &&& final(self)@ == old(self)@.drop_first()
                &&& final(self).ids() == old(self).ids().drop_first()
                &&& !final(self).has_id(old(self)@[0].0)
            },
            old(self)@.len() == 0 ==> r is None && *final(self) == *old(self),
    {
        if self.order.len() == 0 {
            return None;
        }
        let id = self.order[0];
        proof {
            assert(old(self).ids().contains(id)) by {
                assert(old(self).ids()[0] == id);
            }
            assert(old(self).ids().index_of(id) == 0) by {
                let i0 = old(self).ids().index_of(id);
                assert(old(self).ids()[i0] == id);
                if i0 != 0 {
                    assert(old(self).order@[0].slot == old(self).order@[i0].slot);
                }
            }
        }
        let v = self.remove(id);
        proof {
            assert(old(self)@.remove(0) =~= old(self)@.drop_first());
            assert(old(self).ids().remove(0) =~= old(self).ids().drop_first());
        }
        Some((id, v.unwrap()))
    }
}

} // verus!
