//! Dense payload storage with stable, never-reused logical identifiers.
//!
//! [`StableArena`] separates identity from physical position. Removing an entry
//! moves the last payload into its place, while a location table keeps every
//! surviving identifier valid. Unlike [`Registry`](crate::registry::Registry),
//! payload addresses are not stable across mutation.
use crate::registry::{
    id_fits, lemma_id_injective, same_id, slice_refs_mut, Identified, Identifier,
};
use vstd::prelude::*;
use vstd::std_specs::cmp::PartialEqSpec;

verus! {

/// The location of an identifier whose payload is gone.
const DEAD: usize = usize::MAX;

/// Stable logical identifiers over compact, dense physical payload storage.
#[derive(Debug)]
pub struct StableArena<Id: Identifier, T> {
    values: Vec<T>,
    slot_ids: Vec<Id>,
    /// Where the payload of each identifier issued so far is.
    issued: Vec<usize>,
}

/// Place `k` of the entries belongs to `id`.
pub open spec fn is_place<Id, T>(entries: Seq<(Id, T)>, id: Id, k: int) -> bool {
    0 <= k < entries.len() && entries[k].0 == id
}

/// Whether `id` names one of the entries.
pub open spec fn is_live<Id, T>(entries: Seq<(Id, T)>, id: Id) -> bool {
    exists|k: int| is_place(entries, id, k)
}

/// The entries without the one at place `k`, whose place the last one takes.
pub open spec fn without_place<Id, T>(entries: Seq<(Id, T)>, k: int) -> Seq<(Id, T)> {
    entries.update(k, entries.last()).drop_last()
}

/// The identifiers of the entries are distinct, and were issued.
pub open spec fn are_entries<Id: Identifier, T>(entries: Seq<(Id, T)>, issued: nat) -> bool {
    &&& forall|k: int| 0 <= k < entries.len() ==> (#[trigger] entries[k]).0.spec_index() < issued
    &&& forall|i: int, j: int|
        0 <= i < entries.len() && 0 <= j < entries.len() && i != j ==> (#[trigger] entries[i]).0
            != (#[trigger] entries[j]).0
}

impl<Id: Identifier, T> StableArena<Id, T> {
    /// Identifiers and places agree.
    pub closed spec fn wf(&self) -> bool {
        &&& self.values@.len() == self.slot_ids@.len()
        &&& self.values@.len() <= DEAD
        &&& self.issued@.len() <= DEAD
        &&& forall|k: int|
            0 <= k < self.slot_ids@.len() ==> {
                &&& (#[trigger] self.slot_ids@[k]).spec_index() < self.issued@.len()
                &&& self.issued@[self.slot_ids@[k].spec_index() as int] == k
            }
        &&& forall|raw: int|
            0 <= raw < self.issued@.len() && #[trigger] self.issued@[raw] != DEAD ==> {
                &&& self.issued@[raw] < self.slot_ids@.len()
                &&& self.slot_ids@[self.issued@[raw] as int].spec_index() == raw
            }
    }

    /// The live entries in dense physical order.
    pub closed spec fn entries(&self) -> Seq<(Id, T)> {
        Seq::new(self.values@.len(), |k: int| (self.slot_ids@[k], self.values@[k]))
    }

    /// How many identifiers were issued, including removed ones.
    pub closed spec fn issued(&self) -> nat {
        self.issued@.len()
    }

    /// Entries have distinct identifiers that were issued.
    pub proof fn lemma_entries(&self)
        requires
            self.wf(),
        ensures
            are_entries(self.entries(), self.issued()),
    {
        let entries = self.entries();
        assert forall|k: int| 0 <= k < entries.len() implies (#[trigger] entries[k]).0.spec_index()
            < self.issued() by {
            assert(self.slot_ids@[k].spec_index() < self.issued@.len());
        }
        assert forall|i: int, j: int|
            0 <= i < entries.len() && 0 <= j < entries.len() && i != j implies (
        #[trigger] entries[i]).0 != (#[trigger] entries[j]).0 by {
            assert(self.issued@[self.slot_ids@[i].spec_index() as int] == i);
            assert(self.issued@[self.slot_ids@[j].spec_index() as int] == j);
        }
    }

    /// Inserts `value` under a fresh, monotonic identifier.
    pub fn push(&mut self, value: T) -> (id: Id)
        requires
            old(self).wf(),
            old(self).issued() < usize::MAX,
            id_fits::<Id>(old(self).issued() as usize),
        ensures
            final(self).wf(),
            id == Id::spec_from_index(old(self).issued() as usize),
            id.spec_index() == old(self).issued(),
            !is_live(old(self).entries(), id),
            final(self).issued() == old(self).issued() + 1,
            final(self).entries() == old(self).entries().push((id, value)),
    {
        let ghost before = *self;
        let raw: usize = self.issued.len();
        let id = Id::from_usize(raw);
        let slot: usize = self.values.len();
        proof {
            self.lemma_entries();
            // Fewer payloads than identifiers.
            let places = Seq::new(
                self.slot_ids@.len(),
                |k: int| self.slot_ids@[k].spec_index() as int,
            );
            assert forall|k: int| 0 <= k < places.len() implies 0 <= #[trigger] places[k]
                < self.issued@.len() by {
                assert(self.slot_ids@[k].spec_index() < self.issued@.len());
            }
            assert forall|i: int, j: int|
                0 <= i < places.len() && 0 <= j < places.len() && i != j implies places[i]
                != places[j] by {
                assert(self.issued@[self.slot_ids@[i].spec_index() as int] == i);
                assert(self.issued@[self.slot_ids@[j].spec_index() as int] == j);
            }
            crate::counting::lemma_distinct_in_range(places, 0, self.issued@.len() as int);
        }
        self.values.push(value);
        self.slot_ids.push(id);
        self.issued.push(slot);
        proof {
            assert(self.entries() =~= before.entries().push((id, value)));
            assert(!is_live(before.entries(), id)) by {
                if is_live(before.entries(), id) {
                    let k = choose|k: int| is_place(before.entries(), id, k);
                    assert(before.slot_ids@[k].spec_index() < before.issued@.len());
                }
            }
            assert forall|k: int| 0 <= k < self.slot_ids@.len() implies {
                &&& (#[trigger] self.slot_ids@[k]).spec_index() < self.issued@.len()
                &&& self.issued@[self.slot_ids@[k].spec_index() as int] == k
            } by {
                if k < slot {
                    assert(before.slot_ids@[k].spec_index() < before.issued@.len());
                }
            }
            assert forall|r: int|
                0 <= r < self.issued@.len() && #[trigger] self.issued@[r] != DEAD implies {
                &&& self.issued@[r] < self.slot_ids@.len()
                &&& self.slot_ids@[self.issued@[r] as int].spec_index() == r
            } by {
                if r < raw {
                    assert(before.issued@[r] != DEAD);
                }
            }
        }
        id
    }

    /// Returns the number of live payloads.
    pub fn len(&self) -> (len: usize)
        ensures
            len == self.entries().len(),
    {
        self.values.len()
    }

    /// Returns the number of identifiers issued, including removed ones.
    pub fn issued_len(&self) -> (len: usize)
        ensures
            len == self.issued(),
    {
        self.issued.len()
    }

    /// Returns the payload capacity reserved by the dense value vector.
    pub fn capacity(&self) -> (capacity: usize)
        ensures
            capacity >= self.entries().len(),
    {
        vec_capacity(&self.values)
    }

    /// Returns bytes reserved by the arena's three structural vectors.
    ///
    /// Allocations owned by `T` itself are deliberately excluded.
    pub fn structural_bytes(&self) -> (bytes: usize)
        requires
            self.wf(),
        ensures
            bytes >= reserved_bytes(
                (self.entries().len(), vstd::layout::size_of::<T>()),
                (self.entries().len(), vstd::layout::size_of::<Id>()),
                (self.issued(), vstd::layout::size_of::<usize>()),
            ),
    {
        let values = (vec_capacity(&self.values), std::mem::size_of::<T>());
        let slot_ids = (vec_capacity(&self.slot_ids), std::mem::size_of::<Id>());
        let issued = (vec_capacity(&self.issued), std::mem::size_of::<usize>());
        proof {
            lemma_product_grows(
                self.values@.len() as int,
                values.0 as int,
                values.1 as int,
            );
            lemma_product_grows(
                self.slot_ids@.len() as int,
                slot_ids.0 as int,
                slot_ids.1 as int,
            );
            lemma_product_grows(self.issued@.len() as int, issued.0 as int, issued.1 as int);
        }
        sum_reserved(values, slot_ids, issued)
    }

    /// Returns `true` when no live payload remains.
    pub fn is_empty(&self) -> (empty: bool)
        ensures
            empty == (self.entries().len() == 0),
    {
        self.values.is_empty()
    }

    /// Releases structural capacity retained beyond the current live and issued lengths.
    ///
    /// Identifiers, liveness, and dense physical order are unchanged; only allocator
    /// capacity is returned. Intended for explicit end-of-mutation boundaries: shrinking
    /// after every removal would reallocate on the next growth.
    pub fn shrink_to_fit(&mut self)
        requires
            old(self).wf(),
        ensures
            final(self).wf(),
            final(self).entries() == old(self).entries(),
            final(self).issued() == old(self).issued(),
    {
        shrink_vec(&mut self.values);
        shrink_vec(&mut self.slot_ids);
        shrink_vec(&mut self.issued);
    }

    /// Returns whether `id` currently names a live payload.
    pub fn contains(&self, id: Id) -> (live: bool)
        requires
            self.wf(),
        ensures
            live == is_live(self.entries(), id),
    {
        match self.live_slot(id) {
            Some(slot) => {
                assert(is_place(self.entries(), id, slot as int));
                true
            },
            None => false,
        }
    }

    /// Returns the live payload identified by `id`, if any.
    pub fn get(&self, id: Id) -> (found: Option<Identified<Id, &T>>)
        requires
            self.wf(),
        ensures
            match found {
                Some(entry) => entry.id == id && self.entries().contains((id, *entry.inner)),
                None => !is_live(self.entries(), id),
            },
    {
        match self.live_slot(id) {
            Some(slot) => {
                assert(self.entries()[slot as int] == (id, self.values@[slot as int]));
                Some(Identified::new(id, &self.values[slot]))
            },
            None => None,
        }
    }

    /// Returns the live payload identified by `id` mutably, if any.
    pub fn get_mut(&mut self, id: Id) -> (found: Option<Identified<Id, &mut T>>)
        requires
            old(self).wf(),
        ensures
            final(self).wf(),
            final(self).issued() == old(self).issued(),
            match found {
                Some(entry) => entry.id == id && exists|k: int|
                    {
                        &&& #[trigger] is_place(old(self).entries(), id, k)
                        &&& *entry.inner == old(self).entries()[k].1
                        &&& final(self).entries() == old(self).entries().update(
                            k,
                            (id, *final(entry.inner)),
                        )
                    },
                None => !is_live(old(self).entries(), id) && final(self).entries() == old(
                    self,
                ).entries(),
            },
    {
        match self.live_slot(id) {
            Some(slot) => {
                assert(is_place(self.entries(), id, slot as int));
                let entry = Identified::new(id, &mut self.values[slot]);
                assert(after_borrow(self).entries() =~= old(self).entries().update(
                    slot as int,
                    (id, *final(entry.inner)),
                ));
                Some(entry)
            },
            None => None,
        }
    }

    /// Removes and returns `id`'s payload while preserving every other identifier.
    pub fn remove(&mut self, id: Id) -> (removed: T)
        requires
            old(self).wf(),
            is_live(old(self).entries(), id),
        ensures
            final(self).wf(),
            final(self).issued() == old(self).issued(),
            exists|k: int|
                {
                    &&& #[trigger] is_place(old(self).entries(), id, k)
                    &&& removed == old(self).entries()[k].1
                    &&& final(self).entries() == without_place(old(self).entries(), k)
                },
            !is_live(final(self).entries(), id),
    {
        let ghost before = *self;
        let raw: usize = id.to_usize();
        let slot: usize = match self.live_slot(id) {
            Some(slot) => slot,
            None => 0,
        };
        assert(is_place(before.entries(), id, slot as int));
        self.issued.set(raw, DEAD);
        let removed = self.values.swap_remove(slot);
        let removed_id = self.slot_ids.swap_remove(slot);
        let ghost middle = self.issued@;
        if slot < self.values.len() {
            let moved_id = self.slot_ids[slot];
            proof {
                assert(before.slot_ids@[before.slot_ids@.len() - 1].spec_index()
                    < before.issued@.len());
            }
            self.issued.set(moved_id.to_usize(), slot);
        }
        proof {
            let last = before.slot_ids@.len() - 1;
            let moved = before.slot_ids@[last];
            assert(self.entries() =~= without_place(before.entries(), slot as int));
            assert forall|k: int| 0 <= k < self.slot_ids@.len() implies {
                &&& (#[trigger] self.slot_ids@[k]).spec_index() < self.issued@.len()
                &&& self.issued@[self.slot_ids@[k].spec_index() as int] == k
            } by {
                assert(before.slot_ids@[k].spec_index() < before.issued@.len());
                assert(before.issued@[before.slot_ids@[k].spec_index() as int] == k);
                assert(before.issued@[moved.spec_index() as int] == last);
                assert(before.issued@[raw as int] == slot);
            }
            assert forall|r: int|
                0 <= r < self.issued@.len() && #[trigger] self.issued@[r] != DEAD implies {
                &&& self.issued@[r] < self.slot_ids@.len()
                &&& self.slot_ids@[self.issued@[r] as int].spec_index() == r
            } by {
                assert(before.issued@[moved.spec_index() as int] == last);
                if r != moved.spec_index() || slot == last {
                    assert(self.issued@[r] == middle[r]);
                    assert(r != raw);
                    assert(before.issued@[r] != DEAD);
                    assert(before.slot_ids@[before.issued@[r] as int].spec_index() == r);
                    if before.issued@[r] == slot {
                        assert(before.slot_ids@[slot as int].spec_index() == raw);
                    }
                    if before.issued@[r] == last {
                        assert(moved.spec_index() == r);
                    }
                }
            }
            assert(!is_live(self.entries(), id)) by {
                if is_live(self.entries(), id) {
                    let k = choose|k: int| is_place(self.entries(), id, k);
                    assert(self.issued@[self.slot_ids@[k].spec_index() as int] == k);
                    if slot < last {
                        assert(moved.spec_index() != raw);
                    }
                }
            }
        }
        removed
    }

    fn live_slot(&self, id: Id) -> (slot: Option<usize>)
        requires
            self.wf(),
        ensures
            match slot {
                Some(slot) => {
                    &&& slot < self.values@.len()
                    &&& self.slot_ids@[slot as int] == id
                    &&& id.spec_index() < self.issued@.len()
                    &&& self.issued@[id.spec_index() as int] == slot
                },
                None => !is_live(self.entries(), id),
            },
    {
        let raw: usize = id.to_usize();
        proof {
            if is_live(self.entries(), id) {
                let k = choose|k: int| is_place(self.entries(), id, k);
                assert(self.slot_ids@[k].spec_index() < self.issued@.len());
                assert(self.issued@[id.spec_index() as int] == k);
            }
        }
        if raw >= self.issued.len() {
            return None;
        }
        let slot: usize = self.issued[raw];
        if slot == DEAD {
            None
        } else {
            proof {
                lemma_id_injective(self.slot_ids@[slot as int], id);
            }
            Some(slot)
        }
    }

    /// The live entries in dense physical order.
    pub fn iter(&self) -> (items: Vec<Identified<Id, &T>>)
        requires
            self.wf(),
        ensures
            items@.len() == self.entries().len(),
            forall|k: int|
                #![trigger items@[k]]
                0 <= k < items@.len() ==> (items@[k].id, *items@[k].inner) == self.entries()[k],
    {
        let mut items: Vec<Identified<Id, &T>> = Vec::new();
        for k in 0..self.values.len()
            invariant
                self.wf(),
                items@.len() == k,
                forall|i: int|
                    #![trigger items@[i]]
                    0 <= i < k ==> (items@[i].id, *items@[i].inner) == self.entries()[i],
        {
            items.push(Identified::new(self.slot_ids[k], &self.values[k]));
        }
        items
    }

    /// One mutable reference per live entry, in dense physical order.
    pub fn iter_mut(&mut self) -> (items: Vec<Identified<Id, &mut T>>)
        requires
            old(self).wf(),
        ensures
            final(self).wf(),
            final(self).issued() == old(self).issued(),
            items@.len() == old(self).entries().len(),
            final(self).entries().len() == old(self).entries().len(),
            forall|k: int|
                #![trigger items@[k]]
                0 <= k < items@.len() ==> {
                    &&& items@[k].id == old(self).entries()[k].0
                    &&& *items@[k].inner == old(self).entries()[k].1
                    &&& final(self).entries()[k] == (items@[k].id, *final(items@[k].inner))
                },
    {
        let ghost before = *self;
        let mut refs = slice_refs_mut(self.values.as_mut_slice());
        let ghost all = refs@;
        let mut reversed: Vec<Identified<Id, &mut T>> = Vec::new();
        while refs.len() > 0
            invariant
                before.wf(),
                self.slot_ids@ == before.slot_ids@,
                all.len() == before.slot_ids@.len(),
                refs@.len() + reversed@.len() == all.len(),
                refs@ == all.subrange(0, refs@.len() as int),
                forall|i: int|
                    #![trigger reversed@[i]]
                    0 <= i < reversed@.len() ==> reversed@[i].id == before.slot_ids@[all.len() - 1
                        - i] && reversed@[i].inner == all[all.len() - 1 - i],
            decreases refs@.len(),
        {
            let r = refs.pop().unwrap();
            let n: usize = refs.len();
            let item = Identified::new(self.slot_ids[n], r);
            assert(item.inner == all[n as int]);
            reversed.push(item);
        }
        let mut items: Vec<Identified<Id, &mut T>> = Vec::new();
        let ghost backward = reversed@;
        while reversed.len() > 0
            invariant
                reversed@ == backward.subrange(0, reversed@.len() as int),
                items@.len() + reversed@.len() == backward.len(),
                forall|i: int|
                    #![trigger items@[i]]
                    0 <= i < items@.len() ==> items@[i] == backward[backward.len() - 1 - i],
            decreases reversed@.len(),
        {
            let item = reversed.pop().unwrap();
            items.push(item);
        }
        items
    }

    /// Takes the arena apart into its live entries, in dense physical order.
    pub fn into_items(self) -> (items: Vec<Identified<Id, T>>)
        requires
            self.wf(),
        ensures
            items@.len() == self.entries().len(),
            forall|k: int|
                #![trigger items@[k]]
                0 <= k < items@.len() ==> (items@[k].id, items@[k].inner) == self.entries()[k],
    {
        let ghost entries = self.entries();
        let mut values = self.values;
        let slot_ids = self.slot_ids;
        let mut reversed: Vec<Identified<Id, T>> = Vec::new();
        while values.len() > 0
            invariant
                entries.len() == slot_ids@.len(),
                values@.len() + reversed@.len() == entries.len(),
                forall|k: int|
                    0 <= k < values@.len() ==> (slot_ids@[k], #[trigger] values@[k]) == entries[k],
                forall|i: int|
                    #![trigger reversed@[i]]
                    0 <= i < reversed@.len() ==> (reversed@[i].id, reversed@[i].inner)
                        == entries[entries.len() - 1 - i],
            decreases values@.len(),
        {
            let ghost before = values@;
            let value = values.pop().unwrap();
            let n: usize = values.len();
            assert((slot_ids@[n as int], before[n as int]) == entries[n as int]);
            reversed.push(Identified::new(slot_ids[n], value));
            assert forall|k: int| 0 <= k < values@.len() implies (slot_ids@[k], #[trigger] values@[k])
                == entries[k] by {
                assert(values@[k] == before[k]);
            }
        }
        let mut items: Vec<Identified<Id, T>> = Vec::new();
        let ghost backward = reversed@;
        while reversed.len() > 0
            invariant
                backward.len() == entries.len(),
                forall|i: int|
                    #![trigger backward[i]]
                    0 <= i < backward.len() ==> (backward[i].id, backward[i].inner)
                        == entries[entries.len() - 1 - i],
                reversed@ == backward.subrange(0, reversed@.len() as int),
                items@.len() + reversed@.len() == backward.len(),
                forall|i: int|
                    #![trigger items@[i]]
                    0 <= i < items@.len() ==> items@[i] == backward[backward.len() - 1 - i],
            decreases reversed@.len(),
        {
            let item = reversed.pop().unwrap();
            items.push(item);
        }
        items
    }

    /// An arena of the given payloads, under ascending identifiers.
    pub fn from_items(items: Vec<T>) -> (arena: Self)
        requires
            items@.len() < usize::MAX,
            forall|n: usize| n < items@.len() ==> #[trigger] id_fits::<Id>(n),
        ensures
            arena.wf(),
            arena.issued() == items@.len(),
            arena.entries().len() == items@.len(),
            forall|k: int|
                #![trigger arena.entries()[k]]
                0 <= k < items@.len() ==> arena.entries()[k] == (
                    Id::spec_from_index(k as usize),
                    items@[k],
                ),
    {
        let ghost all = items@;
        let mut arena = StableArena::default();
        let mut items = items;
        let mut reversed: Vec<T> = Vec::new();
        while items.len() > 0
            invariant
                items@.len() + reversed@.len() == all.len(),
                items@ == all.subrange(0, items@.len() as int),
                forall|i: int|
                    0 <= i < reversed@.len() ==> #[trigger] reversed@[i] == all[all.len() - 1 - i],
            decreases items@.len(),
        {
            let item = items.pop().unwrap();
            reversed.push(item);
            assert(items@ =~= all.subrange(0, items@.len() as int));
        }
        while reversed.len() > 0
            invariant
                all.len() < usize::MAX,
                forall|n: usize| n < all.len() ==> #[trigger] id_fits::<Id>(n),
                forall|i: int|
                    0 <= i < reversed@.len() ==> #[trigger] reversed@[i] == all[all.len() - 1 - i],
                arena.wf(),
                arena.issued() + reversed@.len() == all.len(),
                arena.entries().len() == arena.issued(),
                forall|k: int|
                    #![trigger arena.entries()[k]]
                    0 <= k < arena.entries().len() ==> arena.entries()[k] == (
                        Id::spec_from_index(k as usize),
                        all[k],
                    ),
            decreases reversed@.len(),
        {
            let ghost before = reversed@;
            let ghost entries = arena.entries();
            let value = reversed.pop().unwrap();
            assert(before[before.len() - 1] == all[all.len() - before.len()]);
            assert(id_fits::<Id>(arena.issued() as usize));
            let id = arena.push(value);
            assert forall|k: int|
                #![trigger arena.entries()[k]]
                0 <= k < arena.entries().len() implies arena.entries()[k] == (
                Id::spec_from_index(k as usize),
                all[k],
            ) by {
                if k < entries.len() {
                    assert(arena.entries()[k] == entries[k]);
                }
            }
        }
        arena
    }
}

impl<Id: Identifier, T> Default for StableArena<Id, T> {
    fn default() -> (arena: Self)
        ensures
            arena.wf(),
            arena.issued() == 0,
            arena.entries() == Seq::<(Id, T)>::empty(),
    {
        let arena = StableArena { values: Vec::new(), slot_ids: Vec::new(), issued: Vec::new() };
        assert(arena.entries() =~= Seq::<(Id, T)>::empty());
        arena
    }
}

impl<Id: Identifier, T> std::ops::Index<Id> for StableArena<Id, T> {
    type Output = T;

    fn index(&self, index: Id) -> (r: &T)
        ensures
            self.entries().contains((index, *r)),
    {
        let slot: usize = match self.live_slot(index) {
            Some(slot) => slot,
            None => 0,
        };
        assert(self.entries()[slot as int] == (index, self.values@[slot as int]));
        &self.values[slot]
    }
}

impl<Id: Identifier, T> vstd::std_specs::core::IndexSpecImpl<Id> for StableArena<Id, T> {
    open spec fn index_req(&self, index: &Id) -> bool {
        self.wf() && is_live(self.entries(), *index)
    }
}

impl<Id: Identifier, T: Clone> Clone for StableArena<Id, T> {
    fn clone(&self) -> (r: Self)
        ensures
            self.wf() ==> {
                &&& r.wf()
                &&& r.issued() == self.issued()
                &&& r.entries().len() == self.entries().len()
                &&& forall|k: int|
                    #![trigger r.entries()[k]]
                    0 <= k < r.entries().len() ==> r.entries()[k].0 == self.entries()[k].0
                        && cloned(self.entries()[k].1, r.entries()[k].1)
            },
    {
        let mut values: Vec<T> = Vec::with_capacity(self.values.len());
        for k in 0..self.values.len()
            invariant
                values@.len() == k,
                forall|i: int|
                    #![trigger values@[i]]
                    0 <= i < k ==> cloned(self.values@[i], values@[i]),
        {
            values.push(self.values[k].clone());
        }
        let mut slot_ids: Vec<Id> = Vec::with_capacity(self.slot_ids.len());
        for k in 0..self.slot_ids.len()
            invariant
                slot_ids@ == self.slot_ids@.take(k as int),
        {
            slot_ids.push(self.slot_ids[k]);
            assert(slot_ids@ =~= self.slot_ids@.take(k + 1));
        }
        let mut issued: Vec<usize> = Vec::with_capacity(self.issued.len());
        for k in 0..self.issued.len()
            invariant
                issued@ == self.issued@.take(k as int),
        {
            issued.push(self.issued[k]);
            assert(issued@ =~= self.issued@.take(k + 1));
        }
        assert(slot_ids@ =~= self.slot_ids@);
        assert(issued@ =~= self.issued@);
        StableArena { values, slot_ids, issued }
    }
}

impl<Id: Identifier, T: PartialEq> PartialEq for StableArena<Id, T> {
    fn eq(&self, other: &Self) -> (r: bool) {
        if self.values.len() != other.values.len() || self.slot_ids.len() != other.slot_ids.len()
            || self.issued.len() != other.issued.len() {
            return false;
        }
        for k in 0..self.issued.len()
            invariant
                self.issued@.len() == other.issued@.len(),
                forall|i: int| 0 <= i < k ==> #[trigger] self.issued@[i] == other.issued@[i],
        {
            if self.issued[k] != other.issued[k] {
                return false;
            }
        }
        for k in 0..self.slot_ids.len()
            invariant
                self.slot_ids@.len() == other.slot_ids@.len(),
                forall|i: int| 0 <= i < k ==> #[trigger] self.slot_ids@[i] == other.slot_ids@[i],
        {
            if !same_id(self.slot_ids[k], other.slot_ids[k]) {
                return false;
            }
        }
        for k in 0..self.values.len()
            invariant
                self.values@.len() == other.values@.len(),
                <T as PartialEqSpec>::obeys_eq_spec() ==> forall|i: int|
                    0 <= i < k ==> (#[trigger] self.values@[i]).eq_spec(&other.values@[i]),
        {
            if self.values[k] != other.values[k] {
                return false;
            }
        }
        true
    }
}

impl<Id: Identifier, T: PartialEq> vstd::std_specs::cmp::PartialEqSpecImpl for StableArena<Id, T> {
    open spec fn obeys_eq_spec() -> bool {
        <T as PartialEqSpec>::obeys_eq_spec()
    }

    closed spec fn eq_spec(&self, other: &Self) -> bool {
        &&& self.issued@.len() == other.issued@.len()
        &&& forall|i: int|
            0 <= i < self.issued@.len() ==> #[trigger] self.issued@[i] == other.issued@[i]
        &&& self.slot_ids@.len() == other.slot_ids@.len()
        &&& forall|i: int|
            0 <= i < self.slot_ids@.len() ==> #[trigger] self.slot_ids@[i] == other.slot_ids@[i]
        &&& self.values@.len() == other.values@.len()
        &&& forall|i: int|
            0 <= i < self.values@.len() ==> (#[trigger] self.values@[i]).eq_spec(&other.values@[i])
    }
}

// Wire form.

/// The contents of an arena as plain values: the next identifier, and the live entries in
/// dense physical order.
#[derive(Debug)]
pub struct StableArenaWire<T> {
    pub next_id: usize,
    pub entries: Vec<(usize, T)>,
}

/// Why plain values are no contents of an arena.
#[derive(Debug, Clone, Copy, PartialEq, Eq, Structural)]
pub enum WireError {
    /// The next identifier exhausts the location sentinel.
    NextIdExhausted,
    /// The next identifier exceeds its backing type.
    NextIdTooWide,
    /// A live identifier was not issued.
    Unissued(usize),
    /// A live identifier does not fit its backing type.
    TooWide(usize),
    /// A live identifier occurs twice.
    Duplicate(usize),
}

/// What is wrong with the next identifier.
pub open spec fn next_id_fault<Id: Identifier>(next_id: usize) -> Option<WireError> {
    if next_id == usize::MAX {
        Some(WireError::NextIdExhausted)
    } else if next_id > 0 && !id_fits::<Id>((next_id - 1) as usize) {
        Some(WireError::NextIdTooWide)
    } else {
        None
    }
}

/// What is wrong with entry `i`.
pub open spec fn entry_fault<Id: Identifier, T>(
    next_id: usize,
    entries: Seq<(usize, T)>,
    i: int,
) -> Option<WireError> {
    let raw = entries[i].0;
    if raw >= next_id {
        Some(WireError::Unissued(raw))
    } else if !id_fits::<Id>(raw) {
        Some(WireError::TooWide(raw))
    } else if exists|j: int| 0 <= j < i && (#[trigger] entries[j]).0 == raw {
        Some(WireError::Duplicate(raw))
    } else {
        None
    }
}

/// What is wrong first with the first `k` entries.
pub open spec fn entries_fault<Id: Identifier, T>(
    next_id: usize,
    entries: Seq<(usize, T)>,
    k: int,
) -> Option<WireError>
    decreases k,
{
    if k <= 0 {
        None
    } else {
        match entries_fault::<Id, T>(next_id, entries, k - 1) {
            Some(error) => Some(error),
            None => entry_fault::<Id, T>(next_id, entries, k - 1),
        }
    }
}

/// What is wrong first with the plain contents of an arena.
pub open spec fn wire_fault<Id: Identifier, T>(
    next_id: usize,
    entries: Seq<(usize, T)>,
) -> Option<WireError> {
    match next_id_fault::<Id>(next_id) {
        Some(error) => Some(error),
        None => entries_fault::<Id, T>(next_id, entries, entries.len() as int),
    }
}

/// A fault stays when more entries follow.
proof fn lemma_fault_stays<Id: Identifier, T>(
    next_id: usize,
    entries: Seq<(usize, T)>,
    i: int,
    k: int,
)
    requires
        0 <= i <= k,
        entries_fault::<Id, T>(next_id, entries, i) is Some,
    ensures
        entries_fault::<Id, T>(next_id, entries, k) == entries_fault::<Id, T>(next_id, entries, i),
    decreases k,
{
    if i < k {
        lemma_fault_stays::<Id, T>(next_id, entries, i, k - 1);
    }
}

impl<Id: Identifier, T> StableArena<Id, T> {
    /// The contents of the arena as plain values.
    pub fn to_wire(&self) -> (wire: StableArenaWire<&T>)
        requires
            self.wf(),
        ensures
            wire.next_id == self.issued(),
            wire.entries@.len() == self.entries().len(),
            forall|k: int|
                #![trigger wire.entries@[k]]
                0 <= k < wire.entries@.len() ==> wire.entries@[k].0
                    == self.entries()[k].0.spec_index() && *wire.entries@[k].1
                    == self.entries()[k].1,
    {
        let mut entries: Vec<(usize, &T)> = Vec::new();
        for k in 0..self.values.len()
            invariant
                self.wf(),
                entries@.len() == k,
                forall|i: int|
                    #![trigger entries@[i]]
                    0 <= i < k ==> entries@[i].0 == self.entries()[i].0.spec_index()
                        && *entries@[i].1 == self.entries()[i].1,
        {
            entries.push((self.slot_ids[k].to_usize(), &self.values[k]));
        }
        StableArenaWire { next_id: self.issued.len(), entries }
    }

    /// Rebuilds an arena from plain values, or says what is wrong with them first.
    #[verifier::rlimit(40)]
    pub fn from_wire(wire: StableArenaWire<T>) -> (arena: Result<Self, WireError>)
        ensures
            match arena {
                Ok(arena) => {
                    &&& wire_fault::<Id, T>(wire.next_id, wire.entries@) is None
                    &&& arena.wf()
                    &&& arena.issued() == wire.next_id
                    &&& arena.entries().len() == wire.entries@.len()
                    &&& forall|k: int|
                        #![trigger arena.entries()[k]]
                        0 <= k < arena.entries().len() ==> arena.entries()[k] == (
                            Id::spec_from_index(wire.entries@[k].0),
                            wire.entries@[k].1,
                        )
                },
                Err(error) => wire_fault::<Id, T>(wire.next_id, wire.entries@) == Some(error),
            },
    {
        let next_id: usize = wire.next_id;
        let ghost all = wire.entries@;
        if next_id == DEAD {
            return Err(WireError::NextIdExhausted);
        }
        if next_id > 0 && Id::from_usize(next_id - 1).to_usize() != next_id - 1 {
            return Err(WireError::NextIdTooWide);
        }
        let mut issued: Vec<usize> = Vec::new();
        for i in 0..next_id
            invariant
                issued@.len() == i,
                forall|k: int| 0 <= k < i ==> #[trigger] issued@[k] == DEAD,
        {
            issued.push(DEAD);
        }
        let mut slot_ids: Vec<Id> = Vec::new();
        let count = wire.entries.len();
        for k in 0..count
            invariant
                next_id < DEAD,
                next_id == wire.next_id,
                all == wire.entries@,
                count == all.len(),
                next_id_fault::<Id>(next_id) is None,
                entries_fault::<Id, T>(next_id, all, k as int) is None,
                issued@.len() == next_id,
                slot_ids@.len() == k,
                forall|i: int|
                    #![trigger slot_ids@[i]]
                    0 <= i < k ==> {
                        &&& slot_ids@[i] == Id::spec_from_index(all[i].0)
                        &&& slot_ids@[i].spec_index() == all[i].0
                        &&& all[i].0 < next_id
                        &&& issued@[all[i].0 as int] == i
                    },
                forall|r: int|
                    0 <= r < next_id && #[trigger] issued@[r] != DEAD ==> issued@[r] < k
                        && all[issued@[r] as int].0 == r,
        {
            let raw: usize = wire.entries[k].0;
            let mut fault: Option<WireError> = None;
            if raw >= next_id {
                fault = Some(WireError::Unissued(raw));
            } else if Id::from_usize(raw).to_usize() != raw {
                fault = Some(WireError::TooWide(raw));
            } else if issued[raw] != DEAD {
                assert(all[issued@[raw as int] as int].0 == raw);
                fault = Some(WireError::Duplicate(raw));
            }
            proof {
                if raw < next_id && issued@[raw as int] == DEAD {
                    assert forall|j: int| 0 <= j < k implies (#[trigger] all[j]).0 != raw by {
                        assert(slot_ids@[j].spec_index() == all[j].0);
                    }
                }
                assert(fault == entry_fault::<Id, T>(next_id, all, k as int));
                assert(entries_fault::<Id, T>(next_id, all, k + 1) == fault);
            }
            if let Some(error) = fault {
                proof {
                    lemma_fault_stays::<Id, T>(next_id, all, k + 1, all.len() as int);
                }
                return Err(error);
            }
            let ghost before = issued@;
            let ghost ids = slot_ids@;
            issued.set(raw, k);
            slot_ids.push(Id::from_usize(raw));
            proof {
                assert forall|i: int|
                    #![trigger slot_ids@[i]]
                    0 <= i < k + 1 implies {
                    &&& slot_ids@[i] == Id::spec_from_index(all[i].0)
                    &&& slot_ids@[i].spec_index() == all[i].0
                    &&& all[i].0 < next_id
                    &&& issued@[all[i].0 as int] == i
                } by {
                    if i < k {
                        assert(ids[i] == Id::spec_from_index(all[i].0));
                        assert(before[all[i].0 as int] == i);
                    }
                }
            }
        }
        let mut reversed: Vec<(usize, T)> = Vec::new();
        let mut entries = wire.entries;
        let mut values: Vec<T> = Vec::new();
        while entries.len() > 0
            invariant
                entries@ == all.subrange(0, entries@.len() as int),
                entries@.len() + reversed@.len() == all.len(),
                forall|i: int|
                    0 <= i < reversed@.len() ==> #[trigger] reversed@[i] == all[all.len() - 1 - i],
            decreases entries@.len(),
        {
            let entry = entries.pop().unwrap();
            reversed.push(entry);
            assert(entries@ =~= all.subrange(0, entries@.len() as int));
        }
        while reversed.len() > 0
            invariant
                values@.len() + reversed@.len() == all.len(),
                forall|i: int|
                    0 <= i < reversed@.len() ==> #[trigger] reversed@[i] == all[all.len() - 1 - i],
                forall|i: int| 0 <= i < values@.len() ==> #[trigger] values@[i] == all[i].1,
            decreases reversed@.len(),
        {
            let ghost before = reversed@;
            let entry = reversed.pop().unwrap();
            assert(before[before.len() - 1] == all[all.len() - before.len()]);
            values.push(entry.1);
        }
        Ok(StableArena { values, slot_ids, issued })
    }
}

// Laws.

/// Reading back the wire form of an arena finds nothing wrong, and the entries stay.
pub proof fn law_wire_round_trip<Id: Identifier, T>(
    entries: Seq<(Id, T)>,
    issued: nat,
    wire: Seq<(usize, T)>,
)
    requires
        are_entries(entries, issued),
        issued < usize::MAX,
        issued > 0 ==> id_fits::<Id>((issued - 1) as usize),
        wire.len() == entries.len(),
        forall|k: int|
            #![trigger wire[k]]
            0 <= k < wire.len() ==> wire[k] == (entries[k].0.spec_index(), entries[k].1),
    ensures
        wire_fault::<Id, T>(issued as usize, wire) is None,
        forall|k: int|
            #![trigger wire[k]]
            0 <= k < wire.len() ==> (Id::spec_from_index(wire[k].0), wire[k].1) == entries[k],
{
    assert forall|k: int|
        #![trigger wire[k]]
        0 <= k < wire.len() implies (Id::spec_from_index(wire[k].0), wire[k].1) == entries[k] by {
        entries[k].0.lemma_from_index();
    }
    lemma_no_fault(entries, issued, wire, wire.len() as int);
}

proof fn lemma_no_fault<Id: Identifier, T>(
    entries: Seq<(Id, T)>,
    issued: nat,
    wire: Seq<(usize, T)>,
    k: int,
)
    requires
        are_entries(entries, issued),
        issued < usize::MAX,
        wire.len() == entries.len(),
        0 <= k <= wire.len(),
        forall|k: int|
            #![trigger wire[k]]
            0 <= k < wire.len() ==> wire[k] == (entries[k].0.spec_index(), entries[k].1),
    ensures
        entries_fault::<Id, T>(issued as usize, wire, k) is None,
    decreases k,
{
    if k > 0 {
        lemma_no_fault(entries, issued, wire, k - 1);
        let id = entries[k - 1].0;
        id.lemma_from_index();
        assert(wire[k - 1].0 == id.spec_index());
        assert forall|j: int| 0 <= j < k - 1 implies (#[trigger] wire[j]).0 != wire[k - 1].0 by {
            lemma_id_injective(entries[j].0, id);
        }
    }
}

/// Identifiers are never reused: a push makes its own identifier live and leaves every
/// other one live or dead as it was, and its own was not issued before.
pub proof fn law_push_reuses_no_identifier<Id: Identifier, T>(
    entries: Seq<(Id, T)>,
    issued: nat,
    fresh: Id,
    value: T,
    id: Id,
)
    requires
        are_entries(entries, issued),
        fresh.spec_index() == issued,
    ensures
        !is_live(entries, fresh),
        is_live(entries.push((fresh, value)), id) <==> is_live(entries, id) || id == fresh,
        id.spec_index() < issued ==> id != fresh,
{
    let after = entries.push((fresh, value));
    if is_live(entries, id) {
        let k = choose|k: int| is_place(entries, id, k);
        assert(after[k] == entries[k]);
        assert(is_place(after, id, k));
    }
    assert(is_place(after, fresh, entries.len() as int));
    if is_live(after, id) && id != fresh {
        let k = choose|k: int| is_place(after, id, k);
        assert(after[k] == entries[k]);
        assert(is_place(entries, id, k));
    }
}

/// Removing one entry keeps every other one under its identifier, and leaves all
/// identifiers distinct.
pub proof fn law_remove_keeps_others<Id: Identifier, T>(
    entries: Seq<(Id, T)>,
    issued: nat,
    k: int,
)
    requires
        are_entries(entries, issued),
        0 <= k < entries.len(),
    ensures
        are_entries(without_place(entries, k), issued),
        forall|entry: (Id, T)| #[trigger]
            without_place(entries, k).contains(entry) <==> entries.contains(entry) && entry.0
                != entries[k].0,
{
    let after = without_place(entries, k);
    let last = entries.len() - 1;
    assert forall|i: int, j: int|
        0 <= i < after.len() && 0 <= j < after.len() && i != j implies (#[trigger] after[i]).0 != (
    #[trigger] after[j]).0 by {
        let a = if i == k {
            last
        } else {
            i
        };
        let b = if j == k {
            last
        } else {
            j
        };
        assert(entries[a].0 != entries[b].0);
    }
    assert forall|i: int| 0 <= i < after.len() implies (#[trigger] after[i]).0.spec_index()
        < issued by {
        assert(entries[i].0.spec_index() < issued && entries[last].0.spec_index() < issued);
    }
    assert forall|entry: (Id, T)| #[trigger] after.contains(entry) <==> entries.contains(entry)
        && entry.0 != entries[k].0 by {
        if after.contains(entry) {
            let i = choose|i: int| 0 <= i < after.len() && after[i] == entry;
            let a = if i == k {
                last
            } else {
                i
            };
            assert(entries[a] == entry);
            assert(entries[a].0 != entries[k].0);
        }
        if entries.contains(entry) && entry.0 != entries[k].0 {
            let a = choose|a: int| 0 <= a < entries.len() && entries[a] == entry;
            if a == last {
                assert(after[k] == entry);
            } else {
                assert(after[a] == entry);
            }
        }
    }
}

// Capacity.

/// `Vec::capacity`: a vector has room for at least its elements. How much more depends on
/// the allocator.
#[verifier::external_body]
fn vec_capacity<T>(list: &Vec<T>) -> (capacity: usize)
    ensures
        capacity >= list@.len(),
{
    list.capacity()
}

/// `Vec::shrink_to_fit`: gives capacity back and keeps the elements. How much capacity is
/// left depends on the allocator, and nothing is stated of it.
#[verifier::external_body]
pub(crate) fn shrink_vec<T>(list: &mut Vec<T>)
    ensures
        final(list)@ == old(list)@,
{
    list.shrink_to_fit();
}

/// The bytes of three vectors, each given by a number of elements and their size, as far
/// as they can be counted.
pub open spec fn reserved_bytes(a: (nat, nat), b: (nat, nat), c: (nat, nat)) -> nat {
    let sum = a.0 * a.1 + b.0 * b.1 + c.0 * c.1;
    if sum > usize::MAX {
        usize::MAX as nat
    } else {
        sum
    }
}

fn times(a: usize, b: usize) -> (c: usize)
    ensures
        c == if a * b > usize::MAX {
            usize::MAX as int
        } else {
            a * b
        },
{
    match a.checked_mul(b) {
        Some(c) => c,
        None => usize::MAX,
    }
}

/// Sums up the bytes of three vectors; a sum that is too large counts as the largest
/// number.
pub fn sum_reserved(a: (usize, usize), b: (usize, usize), c: (usize, usize)) -> (bytes: usize)
    ensures
        bytes == reserved_bytes(
            (a.0 as nat, a.1 as nat),
            (b.0 as nat, b.1 as nat),
            (c.0 as nat, c.1 as nat),
        ),
{
    let x: usize = times(a.0, a.1);
    let y: usize = times(b.0, b.1);
    let z: usize = times(c.0, c.1);
    proof {
        lemma_product_grows(0, a.0 as int, a.1 as int);
        lemma_product_grows(0, b.0 as int, b.1 as int);
        lemma_product_grows(0, c.0 as int, c.1 as int);
    }
    x.saturating_add(y).saturating_add(z)
}

proof fn lemma_product_grows(a: int, b: int, size: int)
    requires
        0 <= a <= b,
        0 <= size,
    ensures
        0 <= a * size <= b * size,
{
    assert(0 <= a * size <= b * size) by (nonlinear_arith)
        requires
            0 <= a <= b,
            0 <= size,
    ;
}

/// The raw identifier of one of the entries.
pub open spec fn is_listed<T>(entries: Seq<(usize, T)>, raw: usize) -> bool {
    exists|i: int| 0 <= i < entries.len() && (#[trigger] entries[i]).0 == raw
}

/// What is faulty is so: a wire without a fault holds distinct identifiers that were issued
/// and fit, and a fault names an identifier of the wire that is not like that.
pub proof fn law_wire_faults_are_real<Id: Identifier, T>(next_id: usize, entries: Seq<(usize, T)>)
    requires
        next_id_fault::<Id>(next_id) is None,
    ensures
        match wire_fault::<Id, T>(next_id, entries) {
            None => {
                &&& forall|i: int|
                    0 <= i < entries.len() ==> (#[trigger] entries[i]).0 < next_id && id_fits::<Id>(
                        entries[i].0,
                    )
                &&& forall|i: int, j: int|
                    0 <= i < j < entries.len() ==> (#[trigger] entries[i]).0 != (
                    #[trigger] entries[j]).0
            },
            Some(WireError::Unissued(raw)) => is_listed(entries, raw) && raw >= next_id,
            Some(WireError::TooWide(raw)) => is_listed(entries, raw) && raw < next_id
                && !id_fits::<Id>(raw),
            Some(WireError::Duplicate(raw)) => exists|i: int, j: int|
                0 <= i < j < entries.len() && (#[trigger] entries[i]).0 == raw && (
                #[trigger] entries[j]).0 == raw,
            Some(_) => false,
        },
{
    lemma_faults_are_real::<Id, T>(next_id, entries, entries.len() as int);
}

proof fn lemma_faults_are_real<Id: Identifier, T>(next_id: usize, entries: Seq<(usize, T)>, k: int)
    requires
        0 <= k <= entries.len(),
    ensures
        match entries_fault::<Id, T>(next_id, entries, k) {
            None => {
                &&& forall|i: int|
                    0 <= i < k ==> (#[trigger] entries[i]).0 < next_id && id_fits::<Id>(
                        entries[i].0,
                    )
                &&& forall|i: int, j: int|
                    0 <= i < j < k ==> (#[trigger] entries[i]).0 != (#[trigger] entries[j]).0
            },
            Some(WireError::Unissued(raw)) => is_listed(entries, raw) && raw >= next_id,
            Some(WireError::TooWide(raw)) => is_listed(entries, raw) && raw < next_id
                && !id_fits::<Id>(raw),
            Some(WireError::Duplicate(raw)) => exists|i: int, j: int|
                0 <= i < j < entries.len() && (#[trigger] entries[i]).0 == raw && (
                #[trigger] entries[j]).0 == raw,
            Some(_) => false,
        },
    decreases k,
{
    if k > 0 {
        lemma_faults_are_real::<Id, T>(next_id, entries, k - 1);
        assert(entries[k - 1].0 == entries[k - 1].0);
    }
}

} // verus!
