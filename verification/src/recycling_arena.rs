//! Typed slab storage whose removed slots are reused.
//!
//! [`RecyclingArena`] is intended for derived, body-local bookkeeping where an
//! identifier is only retained while its payload is live. Removal links the
//! vacant slot into an internal free list, and the next insertion reuses it.
//! Unlike [`StableArena`](crate::stable_arena::StableArena), identifiers are
//! therefore not permanently unique.
use crate::registry::{id_fits, Identified, Identifier};
use crate::stable_arena::shrink_vec;
use vstd::prelude::*;

verus! {

/// One physical slot in a [`RecyclingArena`].
#[derive(Debug)]
pub enum Slot<Id, T> {
    Live(T),
    /// A vacant slot, with the one that was vacant before it.
    Free(Option<Id>),
}

/// A typed slab that reuses removed slots through an intrusive free list.
///
/// Identifiers remain stable while their payload is live, but may identify a different
/// payload after removal and reinsertion. They must not escape the owner whose
/// mutation controls the arena.
pub struct RecyclingArena<Id: Identifier, T> {
    slots: Vec<Slot<Id, T>>,
    free: Option<Id>,
    live: usize,
    chain: Ghost<Seq<int>>,
}

/// The payload in a slot.
pub open spec fn payload<Id, T>(slot: Slot<Id, T>) -> Option<T> {
    match slot {
        Slot::Live(value) => Some(value),
        Slot::Free(_) => None,
    }
}

/// How many slots hold a payload.
pub open spec fn live_count<T>(slots: Seq<Option<T>>) -> nat
    decreases slots.len(),
{
    if slots.len() == 0 {
        0
    } else {
        live_count(slots.drop_last()) + if slots.last() is Some {
            1nat
        } else {
            0
        }
    }
}

proof fn lemma_count_push<T>(slots: Seq<Option<T>>, slot: Option<T>)
    ensures
        live_count(slots.push(slot)) == live_count(slots) + if slot is Some {
            1nat
        } else {
            0
        },
{
    assert(slots.push(slot).drop_last() =~= slots);
}

proof fn lemma_count_update<T>(slots: Seq<Option<T>>, i: int, slot: Option<T>)
    requires
        0 <= i < slots.len(),
    ensures
        live_count(slots.update(i, slot)) == live_count(slots) + (if slot is Some {
            1int
        } else {
            0
        }) - (if slots[i] is Some {
            1int
        } else {
            0
        }),
    decreases slots.len(),
{
    let after = slots.update(i, slot);
    if i == slots.len() - 1 {
        assert(after.drop_last() =~= slots.drop_last());
    } else {
        assert(after.drop_last() =~= slots.drop_last().update(i, slot));
        lemma_count_update(slots.drop_last(), i, slot);
    }
}

pub proof fn lemma_count_bound<T>(slots: Seq<Option<T>>)
    ensures
        live_count(slots) <= slots.len(),
        (exists|i: int| 0 <= i < slots.len() && #[trigger] slots[i] is Some) ==> live_count(slots)
            > 0,
    decreases slots.len(),
{
    if slots.len() > 0 {
        lemma_count_bound(slots.drop_last());
        if exists|i: int| 0 <= i < slots.len() && #[trigger] slots[i] is Some {
            let i = choose|i: int| 0 <= i < slots.len() && #[trigger] slots[i] is Some;
            if i < slots.len() - 1 {
                assert(slots.drop_last()[i] is Some);
            }
        }
    }
}

/// The live slots among the first `k`, with their identifiers.
pub open spec fn live_items<Id: Identifier, T>(slots: Seq<Option<T>>, k: int) -> Seq<(Id, T)>
    decreases k,
{
    if k <= 0 {
        Seq::empty()
    } else {
        let before = live_items::<Id, T>(slots, k - 1);
        match slots[k - 1] {
            Some(value) => before.push((Id::spec_from_index((k - 1) as usize), value)),
            None => before,
        }
    }
}

/// Whether `id` names a slot that holds a payload.
pub open spec fn is_live<Id: Identifier, T>(slots: Seq<Option<T>>, id: Id) -> bool {
    id.spec_index() < slots.len() && slots[id.spec_index() as int] is Some
}

/// The identifiers of the slots that hold a payload.
pub open spec fn live_ids<Id: Identifier, T>(slots: Seq<Option<T>>) -> Set<Id> {
    Set::new(|id: Id| is_live(slots, id))
}

/// The items among the first `k` slots are the live ones, each once.
proof fn lemma_live_items<Id: Identifier, T>(slots: Seq<Option<T>>, k: int)
    requires
        0 <= k <= slots.len() <= usize::MAX,
        forall|r: usize| r < slots.len() ==> #[trigger] id_fits::<Id>(r),
    ensures
        ({
            let items = live_items::<Id, T>(slots, k);
            &&& items.len() == live_count(slots.take(k))
            &&& forall|i: int|
                #![trigger items[i]]
                0 <= i < items.len() ==> items[i].0.spec_index() < k
                    && slots[items[i].0.spec_index() as int] == Some(items[i].1)
            &&& forall|i: int, j: int|
                0 <= i < items.len() && 0 <= j < items.len() && i != j ==> (#[trigger] items[i]).0
                    != (#[trigger] items[j]).0
            &&& forall|id: Id|
                id.spec_index() < k && #[trigger] is_live(slots, id) ==> exists|i: int|
                    0 <= i < items.len() && (#[trigger] items[i]).0 == id
        }),
    decreases k,
{
    if k > 0 {
        lemma_live_items::<Id, T>(slots, k - 1);
        let before = live_items::<Id, T>(slots, k - 1);
        let items = live_items::<Id, T>(slots, k);
        let last = Id::spec_from_index((k - 1) as usize);
        assert(id_fits::<Id>((k - 1) as usize));
        assert(slots.take(k).drop_last() =~= slots.take(k - 1));
        assert forall|i: int|
            #![trigger items[i]]
            0 <= i < items.len() implies items[i].0.spec_index() < k
            && slots[items[i].0.spec_index() as int] == Some(items[i].1) by {
            if i < before.len() {
                assert(items[i] == before[i]);
            }
        }
        assert forall|i: int, j: int|
            0 <= i < items.len() && 0 <= j < items.len() && i != j implies (#[trigger] items[i]).0
            != (#[trigger] items[j]).0 by {
            if i < before.len() {
                assert(items[i] == before[i]);
            }
            if j < before.len() {
                assert(items[j] == before[j]);
            }
        }
        assert forall|id: Id|
            id.spec_index() < k && #[trigger] is_live(slots, id) implies exists|i: int|
            0 <= i < items.len() && (#[trigger] items[i]).0 == id by {
            if id.spec_index() < k - 1 {
                let i = choose|i: int| 0 <= i < before.len() && (#[trigger] before[i]).0 == id;
                assert(items[i].0 == id);
            } else {
                id.lemma_from_index();
                assert(id == last);
                assert(items[before.len() as int].0 == id);
            }
        }
    } else {
        assert(slots.take(0) =~= Seq::empty());
    }
}

impl<Id: Identifier, T> RecyclingArena<Id, T> {
    /// What each slot holds.
    pub closed spec fn slots(&self) -> Seq<Option<T>> {
        self.slots@.map_values(|slot: Slot<Id, T>| payload(slot))
    }

    /// The vacant slots; the one that was removed last comes last.
    pub closed spec fn vacant(&self) -> Seq<int> {
        self.chain@
    }

    /// The free list leads through all vacant slots.
    pub closed spec fn wf(&self) -> bool {
        let list = self.chain@;
        &&& list.no_duplicates()
        &&& forall|i: int|
            #![trigger list[i]]
            0 <= i < list.len() ==> {
                &&& 0 <= list[i] < self.slots@.len()
                &&& self.slots@[list[i]] == Slot::<Id, T>::Free(self.link(i - 1))
            }
        &&& forall|r: int|
            0 <= r < self.slots@.len() && (#[trigger] self.slots@[r]) is Free ==> list.contains(r)
        &&& self.free == self.link(list.len() - 1)
        &&& self.live == live_count(self.slots())
        &&& self.slots@.len() <= usize::MAX
        &&& forall|r: int|
            0 <= r < self.slots@.len() ==> #[trigger] id_fits::<Id>(r as usize)
    }

    spec fn link(&self, i: int) -> Option<Id> {
        if i < 0 {
            None
        } else {
            Some(Id::spec_from_index(self.chain@[i] as usize))
        }
    }

    /// Vacant slots are distinct and hold nothing; all others hold something. Each slot has
    /// an identifier of its own.
    pub proof fn law_vacant_slots(&self)
        requires
            self.wf(),
        ensures
            self.vacant().no_duplicates(),
            forall|r: int|
                0 <= r < self.slots().len() ==> (#[trigger] self.slots()[r] is None
                    <==> self.vacant().contains(r)),
            forall|i: int|
                0 <= i < self.vacant().len() ==> 0 <= #[trigger] self.vacant()[i]
                    < self.slots().len(),
            forall|r: usize| r < self.slots().len() ==> #[trigger] id_fits::<Id>(r),
    {
        assert forall|r: usize| r < self.slots().len() implies #[trigger] id_fits::<Id>(r) by {
            assert(id_fits::<Id>((r as int) as usize));
        }
        assert forall|r: int| 0 <= r < self.slots().len() implies (#[trigger] self.slots()[r] is None
            <==> self.vacant().contains(r)) by {
            assert(self.slots()[r] == payload(self.slots@[r]));
            if self.chain@.contains(r) {
                let i = choose|i: int| 0 <= i < self.chain@.len() && self.chain@[i] == r;
                assert(self.slots@[self.chain@[i]] is Free);
            }
        }
    }

    /// The items are the live identifiers, each once, with their payloads, and their number
    /// is that of the identifiers that the arena contains.
    pub proof fn law_items_are_the_live_identifiers(&self)
        requires
            self.wf(),
        ensures
            ({
                let items = live_items::<Id, T>(self.slots(), self.slots().len() as int);
                let ids = items.map_values(|item: (Id, T)| item.0);
                &&& items.len() == live_count(self.slots())
                &&& ids.no_duplicates()
                &&& forall|id: Id| #[trigger] ids.contains(id) <==> is_live(self.slots(), id)
                &&& forall|k: int|
                    #![trigger items[k]]
                    0 <= k < items.len() ==> self.slots()[items[k].0.spec_index() as int] == Some(
                        items[k].1,
                    )
                &&& live_ids::<Id, T>(self.slots()).finite()
                &&& live_ids::<Id, T>(self.slots()).len() == live_count(self.slots())
                &&& live_count(self.slots()) == 0 <==> forall|id: Id|
                    !#[trigger] is_live(self.slots(), id)
            }),
    {
        let slots = self.slots();
        let items = live_items::<Id, T>(slots, slots.len() as int);
        let ids = items.map_values(|item: (Id, T)| item.0);
        self.law_vacant_slots();
        lemma_live_items::<Id, T>(slots, slots.len() as int);
        assert(slots.take(slots.len() as int) =~= slots);
        assert forall|id: Id| #[trigger] ids.contains(id) <==> is_live(slots, id) by {
            if ids.contains(id) {
                let k = ids.index_of(id);
                assert(items[k].0 == id);
            }
            if is_live(slots, id) {
                let k = choose|k: int| 0 <= k < items.len() && (#[trigger] items[k]).0 == id;
                assert(ids[k] == id);
            }
        }
        ids.unique_seq_to_set();
        assert(ids.to_set() =~= live_ids::<Id, T>(slots));
        if live_count(slots) > 0 {
            assert(ids.contains(ids[0]));
            assert(is_live(slots, ids[0]));
        }
        if exists|id: Id| #[trigger] is_live(slots, id) {
            let id = choose|id: Id| #[trigger] is_live(slots, id);
            assert(ids.contains(id));
        }
    }

    /// Inserts `value`, reusing the most recently removed slot when possible.
    pub fn push(&mut self, value: T) -> (id: Id)
        requires
            old(self).wf(),
            old(self).vacant().len() == 0 ==> old(self).slots().len() < usize::MAX && id_fits::<Id>(
                old(self).slots().len() as usize,
            ),
        ensures
            final(self).wf(),
            ({
                let raw = if old(self).vacant().len() == 0 {
                    old(self).slots().len() as int
                } else {
                    old(self).vacant().last()
                };
                &&& id == Id::spec_from_index(raw as usize)
                &&& id.spec_index() == raw
                &&& final(self).slots() == if old(self).vacant().len() == 0 {
                    old(self).slots().push(Some(value))
                } else {
                    old(self).slots().update(raw, Some(value))
                }
                &&& final(self).vacant() == if old(self).vacant().len() == 0 {
                    old(self).vacant()
                } else {
                    old(self).vacant().drop_last()
                }
            }),
    {
        let ghost before = *self;
        let ghost list = self.chain@;
        let id = match self.free {
            Some(id) => {
                let raw: usize = id.to_usize();
                let ghost top = list.len() - 1;
                proof {
                    assert(list.len() > 0);
                    assert(0 <= list[top] < self.slots@.len());
                    assert(id_fits::<Id>(list[top] as usize));
                    assert(raw == list[top]);
                }
                let mut next: Option<Id> = None;
                if let Slot::Free(after) = &self.slots[raw] {
                    next = *after;
                }
                self.free = next;
                self.slots.set(raw, Slot::Live(value));
                proof {
                    self.chain@ = list.drop_last();
                    assert(self.slots() =~= before.slots().update(raw as int, Some(value)));
                    lemma_count_update(before.slots(), raw as int, Some(value));
                    assert(before.slots()[raw as int] is None);
                    assert forall|i: int|
                        #![trigger self.chain@[i]]
                        0 <= i < self.chain@.len() implies {
                        &&& 0 <= self.chain@[i] < self.slots@.len()
                        &&& self.slots@[self.chain@[i]] == Slot::<Id, T>::Free(self.link(i - 1))
                    } by {
                        assert(list[i] == self.chain@[i]);
                        assert(list[i] != list[top]);
                    }
                    assert forall|r: int|
                        0 <= r < self.slots@.len() && (
                        #[trigger] self.slots@[r]) is Free implies self.chain@.contains(r) by {
                        assert(before.slots@[r] is Free);
                        let i = choose|i: int| 0 <= i < list.len() && list[i] == r;
                        assert(self.chain@[i] == r);
                    }
                }
                id
            },
            None => {
                let raw: usize = self.slots.len();
                let id = Id::from_usize(raw);
                proof {
                    if list.len() > 0 {
                        assert(before.link(list.len() - 1) is Some);
                    }
                    lemma_count_push(before.slots(), Some(value));
                }
                self.slots.push(Slot::Live(value));
                proof {
                    assert(self.slots() =~= before.slots().push(Some(value)));
                    assert forall|r: int|
                        0 <= r < self.slots@.len() && (
                        #[trigger] self.slots@[r]) is Free implies self.chain@.contains(r) by {
                        assert(before.slots@[r] is Free);
                    }
                }
                id
            },
        };
        proof {
            lemma_count_bound(self.slots());
        }
        self.live = self.live + 1;
        id
    }

    /// Removes and returns `id`'s payload.
    pub fn remove(&mut self, id: Id) -> (removed: T)
        requires
            old(self).wf(),
            id.spec_index() < old(self).slots().len(),
            old(self).slots()[id.spec_index() as int] is Some,
        ensures
            final(self).wf(),
            Some(removed) == old(self).slots()[id.spec_index() as int],
            final(self).slots() == old(self).slots().update(id.spec_index() as int, None),
            final(self).vacant() == old(self).vacant().push(id.spec_index() as int),
    {
        let ghost before = *self;
        let ghost list = self.chain@;
        let raw: usize = id.to_usize();
        let mut slot: Slot<Id, T> = Slot::Free(self.free);
        self.slots.set_and_swap(raw, &mut slot);
        self.free = Some(id);
        proof {
            id.lemma_from_index();
            assert(before.slots()[raw as int] == payload(before.slots@[raw as int]));
            self.chain@ = list.push(raw as int);
            assert(self.slots() =~= before.slots().update(raw as int, None));
            lemma_count_update(before.slots(), raw as int, None);
            lemma_count_bound(before.slots());
            if list.contains(raw as int) {
                let i = choose|i: int| 0 <= i < list.len() && list[i] == raw;
                assert(before.slots@[list[i]] is Free);
            }
            assert forall|i: int|
                #![trigger self.chain@[i]]
                0 <= i < self.chain@.len() implies {
                &&& 0 <= self.chain@[i] < self.slots@.len()
                &&& self.slots@[self.chain@[i]] == Slot::<Id, T>::Free(self.link(i - 1))
            } by {
                if i < list.len() {
                    assert(list[i] == self.chain@[i]);
                    assert(list[i] != raw);
                }
            }
            assert forall|r: int|
                0 <= r < self.slots@.len() && (
                #[trigger] self.slots@[r]) is Free implies self.chain@.contains(r) by {
                if r == raw {
                    assert(self.chain@[list.len() as int] == r);
                } else {
                    assert(before.slots@[r] is Free);
                    let i = choose|i: int| 0 <= i < list.len() && list[i] == r;
                    assert(self.chain@[i] == r);
                }
            }
        }
        self.live = self.live - 1;
        match slot {
            Slot::Live(value) => value,
            Slot::Free(_) => {
                assert(false);
                vstd::pervasive::unreached()
            },
        }
    }

    /// Returns the number of live payloads.
    pub fn len(&self) -> (len: usize)
        requires
            self.wf(),
        ensures
            len == live_count(self.slots()),
    {
        self.live
    }

    /// Returns whether the arena contains no live payloads.
    pub fn is_empty(&self) -> (empty: bool)
        requires
            self.wf(),
        ensures
            empty == (live_count(self.slots()) == 0),
    {
        self.live == 0
    }

    /// Returns whether `id` currently names a live payload.
    pub fn contains(&self, id: Id) -> (live: bool)
        ensures
            live == is_live(self.slots(), id),
    {
        let raw: usize = id.to_usize();
        if raw >= self.slots.len() {
            return false;
        }
        match &self.slots[raw] {
            Slot::Live(_) => true,
            Slot::Free(_) => false,
        }
    }

    /// Returns the live payload identified by `id`, if any.
    pub fn get(&self, id: Id) -> (found: Option<Identified<Id, &T>>)
        ensures
            match found {
                Some(entry) => {
                    &&& entry.id == id
                    &&& id.spec_index() < self.slots().len()
                    &&& self.slots()[id.spec_index() as int] == Some(*entry.inner)
                },
                None => id.spec_index() >= self.slots().len()
                    || self.slots()[id.spec_index() as int] is None,
            },
    {
        let raw: usize = id.to_usize();
        if raw >= self.slots.len() {
            return None;
        }
        match &self.slots[raw] {
            Slot::Live(value) => Some(Identified::new(id, value)),
            Slot::Free(_) => None,
        }
    }

    /// Returns the live payload identified by `id` mutably, if any.
    pub fn get_mut(&mut self, id: Id) -> (found: Option<Identified<Id, &mut T>>)
        requires
            old(self).wf(),
        ensures
            final(self).wf(),
            final(self).vacant() == old(self).vacant(),
            match found {
                Some(entry) => {
                    &&& entry.id == id
                    &&& id.spec_index() < old(self).slots().len()
                    &&& old(self).slots()[id.spec_index() as int] == Some(*entry.inner)
                    &&& final(self).slots() == old(self).slots().update(
                        id.spec_index() as int,
                        Some(*final(entry.inner)),
                    )
                },
                None => final(self).slots() == old(self).slots() && (id.spec_index() >= old(
                    self,
                ).slots().len() || old(self).slots()[id.spec_index() as int] is None),
            },
    {
        let raw: usize = id.to_usize();
        if raw >= self.slots.len() || !self.contains(id) {
            return None;
        }
        let ghost before = *self;
        match &mut self.slots[raw] {
            Slot::Live(value) => {
                proof {
                    let after = after_borrow(self);
                    assert(after.slots() =~= before.slots().update(
                        raw as int,
                        Some(*final(value)),
                    ));
                    lemma_count_update(before.slots(), raw as int, Some(*final(value)));
                    assert(before.slots()[raw as int] == payload(before.slots@[raw as int]));
                    assert forall|r: int|
                        0 <= r < after.slots@.len() implies #[trigger] id_fits::<Id>(r as usize) by {
                        assert(0 <= r < before.slots@.len());
                    }
                    assert(after.link(after.chain@.len() - 1) == before.link(
                        before.chain@.len() - 1,
                    ));
                    assert forall|i: int|
                        #![trigger after.chain@[i]]
                        0 <= i < after.chain@.len() implies {
                        &&& 0 <= after.chain@[i] < after.slots@.len()
                        &&& after.slots@[after.chain@[i]] == Slot::<Id, T>::Free(after.link(i - 1))
                    } by {
                        assert(before.slots@[before.chain@[i]] is Free);
                    }
                    assert forall|r: int|
                        0 <= r < after.slots@.len() && (
                        #[trigger] after.slots@[r]) is Free implies after.chain@.contains(r) by {
                        assert(before.slots@[r] is Free);
                    }
                }
                Some(Identified::new(id, value))
            },
            Slot::Free(_) => None,
        }
    }

    /// The live payloads with their identifiers in slot order.
    pub fn iter(&self) -> (items: Vec<Identified<Id, &T>>)
        requires
            self.wf(),
        ensures
            items@.len() == live_items::<Id, T>(self.slots(), self.slots().len() as int).len(),
            forall|k: int|
                #![trigger items@[k]]
                0 <= k < items@.len() ==> (items@[k].id, *items@[k].inner) == live_items::<Id, T>(
                    self.slots(),
                    self.slots().len() as int,
                )[k],
    {
        let mut items: Vec<Identified<Id, &T>> = Vec::new();
        for raw in 0..self.slots.len()
            invariant
                items@.len() == live_items::<Id, T>(self.slots(), raw as int).len(),
                forall|k: int|
                    #![trigger items@[k]]
                    0 <= k < items@.len() ==> (items@[k].id, *items@[k].inner) == live_items::<
                        Id,
                        T,
                    >(self.slots(), raw as int)[k],
        {
            assert(self.slots()[raw as int] == payload(self.slots@[raw as int]));
            match &self.slots[raw] {
                Slot::Live(value) => {
                    items.push(Identified::new(Id::from_usize(raw), value));
                },
                Slot::Free(_) => {},
            }
        }
        items
    }

    /// Removes every payload and resets identifier allocation to zero.
    pub fn clear(&mut self)
        ensures
            final(self).wf(),
            final(self).slots() == Seq::<Option<T>>::empty(),
            final(self).vacant() == Seq::<int>::empty(),
    {
        self.slots.clear();
        self.free = None;
        self.live = 0;
        proof {
            self.chain@ = Seq::empty();
        }
        assert(self.slots() =~= Seq::<Option<T>>::empty());
    }

    /// Releases capacity beyond the number of issued slots.
    pub fn shrink_to_fit(&mut self)
        requires
            old(self).wf(),
        ensures
            final(self).wf(),
            final(self).slots() == old(self).slots(),
            final(self).vacant() == old(self).vacant(),
    {
        shrink_vec(&mut self.slots);
    }
}

impl<Id: Identifier, T> Default for RecyclingArena<Id, T> {
    fn default() -> (arena: Self)
        ensures
            arena.wf(),
            arena.slots() == Seq::<Option<T>>::empty(),
            arena.vacant() == Seq::<int>::empty(),
    {
        let arena = RecyclingArena {
            slots: Vec::new(),
            free: None,
            live: 0,
            chain: Ghost(Seq::empty()),
        };
        assert(arena.slots() =~= Seq::<Option<T>>::empty());
        arena
    }
}

impl<Id: Identifier, T> std::ops::Index<Id> for RecyclingArena<Id, T> {
    type Output = T;

    fn index(&self, index: Id) -> (r: &T)
        ensures
            self.slots()[index.spec_index() as int] == Some(*r),
    {
        match &self.slots[index.to_usize()] {
            Slot::Live(value) => value,
            Slot::Free(_) => {
                assert(false);
                vstd::pervasive::unreached()
            },
        }
    }
}

impl<Id: Identifier, T> vstd::std_specs::core::IndexSpecImpl<Id> for RecyclingArena<Id, T> {
    open spec fn index_req(&self, index: &Id) -> bool {
        index.spec_index() < self.slots().len() && self.slots()[index.spec_index() as int] is Some
    }
}

impl<Id: Identifier, T: Clone> Clone for RecyclingArena<Id, T> {
    fn clone(&self) -> (r: Self)
        ensures
            self.wf() ==> {
                &&& r.wf()
                &&& r.vacant() == self.vacant()
                &&& r.slots().len() == self.slots().len()
                &&& forall|k: int|
                    #![trigger r.slots()[k]]
                    0 <= k < r.slots().len() ==> match (self.slots()[k], r.slots()[k]) {
                        (Some(a), Some(b)) => cloned(a, b),
                        (None, None) => true,
                        _ => false,
                    }
            },
    {
        let mut slots: Vec<Slot<Id, T>> = Vec::new();
        for k in 0..self.slots.len()
            invariant
                slots@.len() == k,
                forall|i: int|
                    #![trigger slots@[i]]
                    0 <= i < k ==> match (self.slots@[i], slots@[i]) {
                        (Slot::Live(a), Slot::Live(b)) => cloned(a, b),
                        (Slot::Free(a), Slot::Free(b)) => a == b,
                        _ => false,
                    },
        {
            let slot = match &self.slots[k] {
                Slot::Live(value) => Slot::Live(value.clone()),
                Slot::Free(next) => Slot::Free(*next),
            };
            slots.push(slot);
        }
        let r = RecyclingArena { slots, free: self.free, live: self.live, chain: self.chain };
        proof {
            if self.wf() {
                lemma_count_alike(self.slots(), r.slots());
                assert forall|i: int|
                    #![trigger r.chain@[i]]
                    0 <= i < r.chain@.len() implies {
                    &&& 0 <= r.chain@[i] < r.slots@.len()
                    &&& r.slots@[r.chain@[i]] == Slot::<Id, T>::Free(r.link(i - 1))
                } by {
                    assert(self.slots@[self.chain@[i]] is Free);
                }
                assert forall|k: int|
                    0 <= k < r.slots@.len() && (
                    #[trigger] r.slots@[k]) is Free implies r.chain@.contains(k) by {
                    assert(self.slots@[k] is Free);
                }
                assert forall|k: int|
                    0 <= k < r.slots@.len() implies #[trigger] id_fits::<Id>(k as usize) by {}
            }
        }
        r
    }
}

proof fn lemma_count_alike<T>(a: Seq<Option<T>>, b: Seq<Option<T>>)
    requires
        a.len() == b.len(),
        forall|i: int| 0 <= i < a.len() ==> ((#[trigger] a[i]) is Some <==> b[i] is Some),
    ensures
        live_count(a) == live_count(b),
    decreases a.len(),
{
    if a.len() > 0 {
        assert forall|i: int| 0 <= i < a.drop_last().len() implies ((
        #[trigger] a.drop_last()[i]) is Some <==> b.drop_last()[i] is Some) by {
            assert(a[i] is Some <==> b[i] is Some);
        }
        lemma_count_alike(a.drop_last(), b.drop_last());
        assert(a[a.len() - 1] is Some <==> b[b.len() - 1] is Some);
    }
}

/// What was removed last is reused first: inserting right after a removal takes the same
/// slot again, and all other slots stay as they were.
pub proof fn law_removed_slot_is_reused<T>(
    slots: Seq<Option<T>>,
    vacant: Seq<int>,
    raw: int,
    value: T,
)
    requires
        0 <= raw < slots.len(),
        slots[raw] is Some,
    ensures
        vacant.push(raw).last() == raw,
        vacant.push(raw).drop_last() == vacant,
        slots.update(raw, None).update(raw, Some(value)) == slots.update(raw, Some(value)),
{
    assert(vacant.push(raw).drop_last() =~= vacant);
    assert(slots.update(raw, None).update(raw, Some(value)) =~= slots.update(raw, Some(value)));
}

} // verus!
