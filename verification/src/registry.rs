//! Strongly typed identifiers and registries.
//!
//! - [`Identifier`]: a typed handle that wraps an index
//! - [`Identified`]: a value paired with its typed handle
//! - [`Registry`]: a typed, append-only vector indexed by its handles
use std::marker::PhantomData;
use vstd::prelude::*;
use vstd::std_specs::cmp::PartialEqSpec;

verus! {

/// A typed handle that stands for an index.
///
/// Handles are expected to be light wrappers over an unsigned integer. A handle
/// narrower than `usize` may lose high bits in [`Identifier::from_usize`];
/// [`id_fits`] says for which indices nothing is lost.
pub trait Identifier: Copy {
    /// The index this handle stands for.
    spec fn spec_index(self) -> usize;

    /// The handle made from the index `n`.
    spec fn spec_from_index(n: usize) -> Self;

    /// A handle is determined by its index.
    proof fn lemma_from_index(self)
        ensures
            Self::spec_from_index(self.spec_index()) == self,
    ;

    fn from_usize(n: usize) -> (id: Self)
        ensures
            id == Self::spec_from_index(n),
    ;

    fn to_usize(self) -> (n: usize)
        ensures
            n == self.spec_index(),
    ;
}

/// The index `n` survives the round trip through the handle type.
pub open spec fn id_fits<Id: Identifier>(n: usize) -> bool {
    Id::spec_from_index(n).spec_index() == n
}

/// Two handles are equal exactly when they stand for the same index.
pub proof fn lemma_id_injective<Id: Identifier>(a: Id, b: Id)
    ensures
        a == b <==> a.spec_index() == b.spec_index(),
{
    a.lemma_from_index();
    b.lemma_from_index();
}

/// Whether two handles stand for the same index.
pub fn same_id<Id: Identifier>(a: Id, b: Id) -> (same: bool)
    ensures
        same == (a == b),
{
    proof {
        lemma_id_injective(a, b);
    }
    a.to_usize() == b.to_usize()
}

impl Identifier for usize {
    open spec fn spec_index(self) -> usize {
        self
    }

    open spec fn spec_from_index(n: usize) -> usize {
        n
    }

    proof fn lemma_from_index(self) {
    }

    fn from_usize(n: usize) -> (id: usize) {
        n
    }

    fn to_usize(self) -> (n: usize) {
        self
    }
}

/// A value paired with its typed identifier.
pub struct Identified<Id: Identifier, T> {
    pub id: Id,
    pub inner: T,
}

impl<Id: Identifier, T> Identified<Id, T> {
    /// Creates a new identified wrapper.
    pub fn new(id: Id, data: T) -> (r: Self)
        ensures
            r.id == id,
            r.inner == data,
    {
        Identified { id, inner: data }
    }
}

impl<Id: Identifier, T> std::ops::Deref for Identified<Id, T> {
    type Target = T;

    fn deref(&self) -> (r: &T)
        ensures
            *r == self.inner,
    {
        &self.inner
    }
}

impl<'a, Id: Identifier, T> Identified<Id, &'a mut T> {
    /// Gives up the right to mutate the element.
    pub fn immutable(self) -> (r: Identified<Id, &'a T>)
        ensures
            r.id == self.id,
            *r.inner == *old(self.inner),
            *final(self.inner) == *old(self.inner),
    {
        Identified::new(self.id, &*self.inner)
    }
}

/// The chunk that holds element `n`: the integer logarithm of `n + 1`.
pub open spec fn chunk_of(n: nat) -> nat
    decreases n,
{
    if n == 0 {
        0
    } else {
        1 + chunk_of(((n - 1) / 2) as nat)
    }
}

/// The number of slots in chunk `k`.
pub open spec fn chunk_size(k: nat) -> nat
    decreases k,
{
    if k == 0 {
        1
    } else {
        2 * chunk_size((k - 1) as nat)
    }
}

/// The position of element `n` inside its chunk.
pub open spec fn offset_of(n: nat) -> int {
    n + 1 - chunk_size(chunk_of(n))
}

/// Element `n` has a place inside its chunk, and no other element has that place.
pub proof fn lemma_locate(n: nat)
    ensures
        chunk_size(chunk_of(n)) <= n + 1 < 2 * chunk_size(chunk_of(n)),
        0 <= offset_of(n) < chunk_size(chunk_of(n)),
    decreases n,
{
    if n != 0 {
        lemma_locate(((n - 1) / 2) as nat);
    }
}

/// Chunk sizes grow with the chunk number.
proof fn lemma_chunk_size_monotonic(a: nat, b: nat)
    requires
        a <= b,
    ensures
        chunk_size(a) <= chunk_size(b),
        a < b ==> 2 * chunk_size(a) <= chunk_size(b),
        chunk_size(a) > 0,
    decreases b,
{
    if a < b {
        lemma_chunk_size_monotonic(a, (b - 1) as nat);
    } else if a > 0 {
        lemma_chunk_size_monotonic((a - 1) as nat, (a - 1) as nat);
    }
}

/// The chunk whose range of indices holds `n` is the chunk of `n`.
pub proof fn lemma_chunk_unique(n: nat, k: nat)
    requires
        chunk_size(k) <= n + 1 < 2 * chunk_size(k),
    ensures
        chunk_of(n) == k,
{
    lemma_locate(n);
    if chunk_of(n) < k {
        lemma_chunk_size_monotonic(chunk_of(n), k);
    } else if k < chunk_of(n) {
        lemma_chunk_size_monotonic(k, chunk_of(n));
    }
}

/// Distinct elements have distinct places.
pub proof fn lemma_locate_injective(a: nat, b: nat)
    ensures
        chunk_of(a) == chunk_of(b) && offset_of(a) == offset_of(b) ==> a == b,
{
}

/// The chunk and the offset inside it of the element with index `n`.
pub fn locate(n: usize) -> (place: (usize, usize))
    requires
        n < usize::MAX,
    ensures
        place.0 == chunk_of(n as nat),
        place.1 == offset_of(n as nat),
        chunk_size(place.0 as nat) <= usize::MAX,
{
    let m: usize = n + 1;
    let mut k: usize = 0;
    let mut size: usize = 1;
    while m / 2 >= size
        invariant
            m == n + 1,
            size == chunk_size(k as nat),
            size <= m,
            k < size,
        decreases m - size,
    {
        size = size * 2;
        k = k + 1;
    }
    proof {
        lemma_chunk_unique(n as nat, k as nat);
    }
    (k, m - size)
}

/// A strongly typed vector.
///
/// Elements live in chunks whose sizes double: chunk `k` holds `2^k` elements
/// and is allocated once, at its full size. Growing the registry adds chunks and
/// never moves an element that is already stored.
pub struct Registry<Id: Identifier, T> {
    chunks: Vec<Vec<T>>,
    len: usize,
    _marker: PhantomData<Id>,
}

impl<Id: Identifier, T> View for Registry<Id, T> {
    type V = Seq<T>;

    /// The elements in insertion order.
    closed spec fn view(&self) -> Seq<T> {
        Seq::new(
            self.len as nat,
            |n: int| self.chunks@[chunk_of(n as nat) as int]@[offset_of(n as nat)],
        )
    }
}

impl<Id: Identifier, T> Registry<Id, T> {
    /// Every chunk but the last is full, and together they hold `len` elements.
    pub closed spec fn wf(&self) -> bool {
        if self.len == 0 {
            self.chunks@.len() == 0
        } else {
            let last = (self.len - 1) as nat;
            &&& self.chunks@.len() == chunk_of(last) + 1
            &&& forall|k: int|
                0 <= k < self.chunks@.len() - 1 ==> (#[trigger] self.chunks@[k])@.len()
                    == chunk_size(k as nat)
            &&& self.chunks@.last()@.len() == offset_of(last) + 1
        }
    }

    proof fn lemma_place(&self, n: nat)
        requires
            self.wf(),
            n < self.len,
        ensures
            chunk_of(n) < self.chunks@.len(),
            0 <= offset_of(n) < self.chunks@[chunk_of(n) as int]@.len(),
    {
        let last = (self.len - 1) as nat;
        lemma_locate(n);
        lemma_locate(last);
        if chunk_of(n) > chunk_of(last) {
            lemma_chunk_size_monotonic(chunk_of(last), chunk_of(n));
        }
    }

    /// Pushes a value and returns its typed identifier.
    pub fn push(&mut self, e: T) -> (id: Id)
        requires
            old(self).wf(),
            old(self)@.len() < usize::MAX,
        ensures
            final(self).wf(),
            final(self)@ == old(self)@.push(e),
            id == Id::spec_from_index(old(self)@.len() as usize),
    {
        let n: usize = self.len;
        let (k, offset) = locate(n);
        proof {
            lemma_locate(n as nat);
            if n > 0 {
                let last = (n - 1) as nat;
                lemma_locate(last);
                if chunk_of(last) == k {
                } else if chunk_of(last) > k {
                    lemma_chunk_size_monotonic(k as nat, chunk_of(last));
                } else {
                    lemma_chunk_size_monotonic(chunk_of(last), k as nat);
                    if chunk_of(last) + 1 < k {
                        lemma_chunk_size_monotonic(chunk_of(last) + 1, k as nat);
                    }
                }
            }
        }
        if offset == 0 {
            self.chunks.push(Vec::with_capacity(n + 1 - offset));
        }
        self.chunks[k].push(e);
        self.len = n + 1;
        proof {
            assert forall|i: int| 0 <= i < n implies self@[i] == old(self)@[i] by {
                old(self).lemma_place(i as nat);
                lemma_locate_injective(i as nat, n as nat);
            }
            assert(self@ =~= old(self)@.push(e));
        }
        Id::from_usize(n)
    }

    /// Returns the number of elements.
    pub fn len(&self) -> (n: usize)
        ensures
            n == self@.len(),
    {
        self.len
    }

    /// Returns `true` if the registry contains no elements.
    pub fn is_empty(&self) -> (b: bool)
        ensures
            b == (self@.len() == 0),
    {
        self.len == 0
    }

    fn at(&self, n: usize) -> (r: &T)
        requires
            self.wf(),
            n < self@.len(),
        ensures
            *r == self@[n as int],
    {
        let (k, offset) = locate(n);
        proof {
            self.lemma_place(n as nat);
        }
        &self.chunks[k][offset]
    }

    fn at_mut(&mut self, n: usize) -> (r: &mut T)
        requires
            old(self).wf(),
            n < old(self)@.len(),
        ensures
            *r == old(self)@[n as int],
            final(self).wf(),
            final(self)@ == old(self)@.update(n as int, *final(r)),
    {
        let (k, offset) = locate(n);
        proof {
            self.lemma_place(n as nat);
        }
        let r = &mut self.chunks[k][offset];
        proof {
            let before = *old(self);
            let after = *after_borrow(self);
            assert forall|i: int| 0 <= i < before.len implies after@[i]
                == before@.update(n as int, *final(r))[i] by {
                before.lemma_place(i as nat);
                lemma_locate_injective(i as nat, n as nat);
            }
            assert(after@ =~= before@.update(n as int, *final(r)));
        }
        r
    }

    /// Replaces the element at `id` and returns the previous value.
    pub fn replace(&mut self, id: Id, value: T) -> (prev: T)
        requires
            old(self).wf(),
            id.spec_index() < old(self)@.len(),
        ensures
            final(self).wf(),
            prev == old(self)@[id.spec_index() as int],
            final(self)@ == old(self)@.update(id.spec_index() as int, value),
    {
        let mut value = value;
        let slot = self.at_mut(id.to_usize());
        std::mem::swap(slot, &mut value);
        value
    }

    /// Returns an immutable identified view of an element.
    pub fn get(&self, id: Id) -> (r: Identified<Id, &T>)
        requires
            self.wf(),
            id.spec_index() < self@.len(),
        ensures
            r.id == id,
            *r.inner == self@[id.spec_index() as int],
    {
        Identified::new(id, self.at(id.to_usize()))
    }

    /// Returns a mutable identified view of an element.
    pub fn get_mut(&mut self, id: Id) -> (r: Identified<Id, &mut T>)
        requires
            old(self).wf(),
            id.spec_index() < old(self)@.len(),
        ensures
            r.id == id,
            *r.inner == old(self)@[id.spec_index() as int],
            final(self).wf(),
            final(self)@ == old(self)@.update(id.spec_index() as int, *final(r.inner)),
    {
        Identified::new(id, self.at_mut(id.to_usize()))
    }

    /// Walks the elements in insertion order.
    pub fn iter(&self) -> (it: Iter<'_, Id, T>)
        requires
            self.wf(),
        ensures
            it.wf(),
            it.items() == self@,
            it.position() == 0,
    {
        Iter { registry: self, index: 0 }
    }

    /// One mutable reference per element, in insertion order.
    fn refs_mut(&mut self) -> (refs: Vec<&mut T>)
        requires
            old(self).wf(),
        ensures
            final(self).wf(),
            refs@.len() == old(self)@.len(),
            final(self)@.len() == old(self)@.len(),
            forall|i: int|
                #![trigger refs@[i]]
                0 <= i < refs@.len() ==> *refs@[i] == old(self)@[i] && *final(refs@[i])
                    == final(self)@[i],
    {
        let mut refs: Vec<&mut T> = Vec::new();
        let ghost before = *self;
        let mut rest: &mut [Vec<T>] = self.chunks.as_mut_slice();
        let ghost mut k: int = 0;
        while rest.len() > 0
            invariant
                before.wf(),
                0 <= k <= before.chunks@.len(),
                rest@ == before.chunks@.subrange(k, before.chunks@.len() as int),
                refs@.len() == if k == before.chunks@.len() {
                    before.len as int
                } else {
                    chunk_size(k as nat) - 1
                },
                after_borrow(self).len == before.len,
                k + final(rest)@.len() == after_borrow(self).chunks@.len(),
                final(rest)@ =~= after_borrow(self).chunks@.subrange(
                    k,
                    after_borrow(self).chunks@.len() as int,
                ),
                forall|i: int|
                    #![trigger after_borrow(self).chunks@[i]]
                    0 <= i < k ==> after_borrow(self).chunks@[i]@.len() == before.chunks@[i]@.len(),
                forall|i: int|
                    #![trigger refs@[i]]
                    0 <= i < refs@.len() ==> *refs@[i] == before@[i] && *final(refs@[i])
                        == after_borrow(self).chunks@[chunk_of(i as nat) as int]@[offset_of(
                        i as nat,
                    )] && chunk_of(i as nat) < k,
            decreases rest@.len(),
        {
            let (head, tail) = rest.split_at_mut(1);
            let ghost old_refs = refs@;
            let mut part = slice_refs_mut(head[0].as_mut_slice());
            proof {
                assert(part@.len() == before.chunks@[k]@.len());
                let last = (before.len - 1) as nat;
                lemma_locate(last);
                lemma_chunk_size_monotonic(k as nat, k as nat);
                if k < chunk_of(last) {
                    lemma_chunk_size_monotonic((k + 1) as nat, chunk_of(last));
                }
                assert forall|i: int| old_refs.len() <= i < old_refs.len() + part@.len() implies
                    #[trigger] chunk_of(i as nat) == k && offset_of(i as nat) == i
                    - old_refs.len() by {
                    lemma_chunk_unique(i as nat, k as nat);
                }
            }
            let ghost part_refs = part@;
            refs.append(&mut part);
            rest = tail;
            proof {
                assert(after_borrow(self).chunks@.subrange(k, k + 1 + final(rest)@.len())[0]
                    == after_borrow(self).chunks@[k]);
                assert(final(rest)@ =~= after_borrow(self).chunks@.subrange(
                    k,
                    k + 1 + final(rest)@.len(),
                ).subrange(1, 1int + final(rest)@.len()));
                assert forall|i: int| #![trigger refs@[i]] 0 <= i < refs@.len() implies *refs@[i]
                    == before@[i] && *final(refs@[i])
                    == after_borrow(self).chunks@[chunk_of(i as nat) as int]@[offset_of(i as nat)]
                    && chunk_of(i as nat) < k + 1 by {
                    if i < old_refs.len() {
                        assert(refs@[i] == old_refs[i]);
                    } else {
                        assert(refs@[i] == part_refs[i - old_refs.len()]);
                        assert(chunk_of(i as nat) == k);
                        assert(*part_refs[i - old_refs.len()] == before.chunks@[k]@[i
                            - old_refs.len()]);
                        assert(*final(part_refs[i - old_refs.len()])
                            == after_borrow(self).chunks@[k]@[i - old_refs.len()]);
                    }
                }
                k = k + 1;
            }
        }
        proof {
            let after = *after_borrow(self);
            assert(after.chunks@.len() == before.chunks@.len());
            assert forall|i: int| 0 <= i < before.len implies *final(refs@[i]) == #[trigger] after@[i] by {
                assert(*refs@[i] == before@[i]);
            }
        }
        refs
    }

    /// One identified mutable reference per element, in insertion order.
    pub fn iter_mut(&mut self) -> (items: Vec<Identified<Id, &mut T>>)
        requires
            old(self).wf(),
        ensures
            final(self).wf(),
            items@.len() == old(self)@.len(),
            final(self)@.len() == old(self)@.len(),
            forall|i: int|
                #![trigger items@[i]]
                0 <= i < items@.len() ==> {
                    &&& items@[i].id == Id::spec_from_index(i as usize)
                    &&& *items@[i].inner == old(self)@[i]
                    &&& *final(items@[i].inner) == final(self)@[i]
                },
    {
        let ghost before = self@;
        let mut refs = self.refs_mut();
        let ghost all = refs@;
        let mut reversed: Vec<Identified<Id, &mut T>> = Vec::new();
        while refs.len() > 0
            invariant
                all.len() == before.len(),
                before.len() <= usize::MAX,
                refs@.len() + reversed@.len() == all.len(),
                refs@ == all.subrange(0, refs@.len() as int),
                forall|i: int|
                    #![trigger reversed@[i]]
                    0 <= i < reversed@.len() ==> reversed@[i].id == Id::spec_from_index(
                        (all.len() - 1 - i) as usize,
                    ) && reversed@[i].inner == all[all.len() - 1 - i],
            decreases refs@.len(),
        {
            let r = refs.pop().unwrap();
            let n: usize = refs.len();
            let item = Identified::new(Id::from_usize(n), r);
            assert(item.inner == all[n as int]);
            reversed.push(item);
        }
        let mut items: Vec<Identified<Id, &mut T>> = Vec::new();
        let ghost backward = reversed@;
        while reversed.len() > 0
            invariant
                reversed@ == backward.subrange(0, reversed@.len() as int),
                items@.len() + reversed@.len() == backward.len(),
                forall|i: int|
                    #![trigger items@[i]]
                    0 <= i < items@.len() ==> items@[i] == backward[backward.len() - 1 - i],
            decreases reversed@.len(),
        {
            items.push(reversed.pop().unwrap());
        }
        proof {
            assert forall|i: int| #![trigger items@[i]] 0 <= i < items@.len() implies items@[i].id
                == Id::spec_from_index(i as usize) && items@[i].inner == all[i] by {
                assert(items@[i] == backward[backward.len() - 1 - i]);
            }
        }
        items
    }

    /// Borrows the elements at `ids` mutably and disjointly, in the order of `ids`.
    ///
    /// The identifiers must be distinct and in bounds.
    pub fn select_mut(&mut self, ids: &[Id]) -> (picked: Vec<&mut T>)
        requires
            old(self).wf(),
            forall|i: int| 0 <= i < ids@.len() ==> (#[trigger] ids@[i]).spec_index() < old(self)@.len(),
            forall|i: int, j: int|
                0 <= i < j < ids@.len() ==> (#[trigger] ids@[i]).spec_index() != (
                #[trigger] ids@[j]).spec_index(),
        ensures
            final(self).wf(),
            picked@.len() == ids@.len(),
            final(self)@.len() == old(self)@.len(),
            forall|i: int|
                #![trigger picked@[i]]
                0 <= i < ids@.len() ==> {
                    &&& *picked@[i] == old(self)@[ids@[i].spec_index() as int]
                    &&& *final(picked@[i]) == final(self)@[ids@[i].spec_index() as int]
                },
            forall|n: int|
                #![trigger final(self)@[n]]
                0 <= n < old(self)@.len() && (forall|i: int|
                    0 <= i < ids@.len() ==> (#[trigger] ids@[i]).spec_index() != n)
                    ==> final(self)@[n] == old(self)@[n],
    {
        let mut refs = self.refs_mut();
        let ghost all = refs@;
        let mut slots: Vec<Option<&mut T>> = Vec::new();
        while refs.len() > 0
            invariant
                refs@.len() + slots@.len() == all.len(),
                refs@ == all.subrange(0, refs@.len() as int),
                forall|i: int|
                    #![trigger slots@[i]]
                    0 <= i < slots@.len() ==> slots@[i] == Some(all[all.len() - 1 - i]),
            decreases refs@.len(),
        {
            slots.push(refs.pop());
        }
        let count: usize = slots.len();
        let mut picked: Vec<&mut T> = Vec::new();
        for p in 0..ids.len()
            invariant
                slots@.len() == count == all.len(),
                picked@.len() == p,
                forall|i: int| 0 <= i < ids@.len() ==> (#[trigger] ids@[i]).spec_index() < count,
                forall|i: int, j: int|
                    0 <= i < j < ids@.len() ==> (#[trigger] ids@[i]).spec_index() != (
                    #[trigger] ids@[j]).spec_index(),
                forall|i: int|
                    #![trigger picked@[i]]
                    0 <= i < p ==> picked@[i] == all[ids@[i].spec_index() as int],
                forall|n: int|
                    #![trigger all[n]]
                    0 <= n < count && (forall|i: int|
                        0 <= i < p ==> (#[trigger] ids@[i]).spec_index() != n)
                        ==> slots@[count - 1 - n] == Some(all[n]),
        {
            let n: usize = ids[p].to_usize();
            let ghost taken = all[n as int];
            let slot = slots[count - 1 - n].take();
            picked.push(slot.unwrap());
        }
        proof {
            assert forall|n: int|
                0 <= n < count && (forall|i: int|
                    0 <= i < ids@.len() ==> (#[trigger] ids@[i]).spec_index() != n) implies *all[n]
                == *final(#[trigger] all[n]) by {
                let slot = slots@[count - 1 - n];
                assert(has_resolved(slot));
                assert(slot == Some(all[n]));
                match slot {
                    Some(r) => {
                        assert(has_resolved(r));
                    },
                    None => {},
                }
            }
            assert forall|n: int|
                #![trigger after_borrow(self)@[n]]
                0 <= n < count && (forall|i: int|
                    0 <= i < ids@.len() ==> (#[trigger] ids@[i]).spec_index() != n) implies after_borrow(
                self,
            )@[n] == old(self)@[n] by {
                assert(*all[n] == *final(all[n]));
            }
        }
        picked
    }

    /// The elements in insertion order, each with its identifier.
    pub fn into_items(self) -> (items: Vec<Identified<Id, T>>)
        requires
            self.wf(),
        ensures
            items@.len() == self@.len(),
            forall|i: int|
                #![trigger items@[i]]
                0 <= i < items@.len() ==> items@[i].id == Id::spec_from_index(i as usize)
                    && items@[i].inner == self@[i],
    {
        let mut items: Vec<Identified<Id, T>> = Vec::new();
        let ghost whole = self;
        let mut chunks = self.chunks;
        let mut reversed: Vec<T> = Vec::new();
        let count: usize = self.len;
        while reversed.len() < count
            invariant
                whole.wf(),
                count == whole.len,
                reversed@.len() <= count,
                reversed@.len() < count ==> {
                    let next = (count - 1 - reversed@.len()) as nat;
                    &&& chunk_of(next) < chunks@.len()
                    &&& chunks@.len() <= whole.chunks@.len()
                    &&& forall|k: int|
                        0 <= k < chunk_of(next) ==> #[trigger] chunks@[k] == whole.chunks@[k]
                    &&& chunks@[chunk_of(next) as int]@
                        == whole.chunks@[chunk_of(next) as int]@.subrange(0, offset_of(next) + 1)
                },
                forall|i: int|
                    #![trigger reversed@[i]]
                    0 <= i < reversed@.len() ==> reversed@[i] == whole@[count - 1 - i],
            decreases count - reversed@.len(),
        {
            let n: usize = count - 1 - reversed.len();
            let (k, offset) = locate(n);
            proof {
                whole.lemma_place(n as nat);
            }
            let e = chunks[k].pop().unwrap();
            proof {
                lemma_locate(n as nat);
                if n > 0 {
                    let m = (n - 1) as nat;
                    lemma_locate(m);
                    whole.lemma_place(m);
                    if chunk_of(m) < k {
                        lemma_chunk_size_monotonic(chunk_of(m), k as nat);
                        if chunk_of(m) + 1 < k {
                            lemma_chunk_size_monotonic(chunk_of(m) + 1, k as nat);
                        }
                    } else if chunk_of(m) > k {
                        lemma_chunk_size_monotonic(k as nat, chunk_of(m));
                    }
                }
            }
            reversed.push(e);
        }
        for i in 0..count
            invariant
                count == whole@.len(),
                reversed@.len() == count - i,
                forall|j: int|
                    #![trigger reversed@[j]]
                    0 <= j < reversed@.len() ==> reversed@[j] == whole@[count - 1 - j],
                items@.len() == i,
                forall|j: int|
                    #![trigger items@[j]]
                    0 <= j < i ==> items@[j].id == Id::spec_from_index(j as usize)
                        && items@[j].inner == whole@[j],
        {
            let e = reversed.pop().unwrap();
            items.push(Identified::new(Id::from_usize(i), e));
        }
        items
    }

    /// A registry that holds `items` in their order.
    pub fn from_items(items: Vec<T>) -> (r: Self)
        requires
            items@.len() < usize::MAX,
        ensures
            r.wf(),
            r@ == items@,
    {
        let mut registry: Self = Registry::default();
        let ghost all = items@;
        let mut backward: Vec<T> = Vec::new();
        let mut items = items;
        while items.len() > 0
            invariant
                items@ == all.subrange(0, items@.len() as int),
                items@.len() + backward@.len() == all.len(),
                forall|i: int|
                    #![trigger backward@[i]]
                    0 <= i < backward@.len() ==> backward@[i] == all[all.len() - 1 - i],
            decreases items@.len(),
        {
            backward.push(items.pop().unwrap());
        }
        while backward.len() > 0
            invariant
                all.len() < usize::MAX,
                registry.wf(),
                registry@.len() + backward@.len() == all.len(),
                registry@ =~= all.subrange(0, registry@.len() as int),
                forall|i: int|
                    #![trigger backward@[i]]
                    0 <= i < backward@.len() ==> backward@[i] == all[all.len() - 1 - i],
            decreases backward@.len(),
        {
            let e = backward.pop().unwrap();
            registry.push(e);
        }
        registry
    }
}

impl<Id: Identifier, T> Default for Registry<Id, T> {
    fn default() -> (r: Self)
        ensures
            r.wf(),
            r@ == Seq::<T>::empty(),
    {
        let r = Registry { chunks: Vec::new(), len: 0, _marker: PhantomData };
        assert(r@ =~= Seq::<T>::empty());
        r
    }
}

impl<Id: Identifier, T> std::ops::Index<Id> for Registry<Id, T> {
    type Output = T;

    fn index(&self, index: Id) -> (r: &T)
        ensures
            *r == self@[index.spec_index() as int],
    {
        self.at(index.to_usize())
    }
}

impl<Id: Identifier, T> vstd::std_specs::core::IndexSpecImpl<Id> for Registry<Id, T> {
    open spec fn index_req(&self, index: &Id) -> bool {
        self.wf() && index.spec_index() < self@.len()
    }
}

impl<Id: Identifier, T: Clone> Clone for Registry<Id, T> {
    /// Rebuilds the chunks at their full size, so that the clone can grow in place.
    fn clone(&self) -> (r: Self)
        ensures
            self.wf() ==> r.wf() && r@.len() == self@.len() && forall|i: int|
                #![trigger r@[i]]
                0 <= i < r@.len() ==> cloned(self@[i], r@[i]),
    {
        let mut chunks: Vec<Vec<T>> = Vec::new();
        let mut size: usize = 1;
        for k in 0..self.chunks.len()
            invariant
                chunks@.len() == k,
                forall|i: int|
                    #![trigger chunks@[i]]
                    0 <= i < k ==> chunks@[i]@.len() == self.chunks@[i]@.len() && forall|j: int|
                        #![trigger chunks@[i]@[j]]
                        0 <= j < chunks@[i]@.len() ==> cloned(
                            self.chunks@[i]@[j],
                            chunks@[i]@[j],
                        ),
        {
            let source = &self.chunks[k];
            let mut chunk: Vec<T> = Vec::with_capacity(size);
            for j in 0..source.len()
                invariant
                    source@ == self.chunks@[k as int]@,
                    chunk@.len() == j,
                    forall|i: int|
                        #![trigger chunk@[i]]
                        0 <= i < j ==> cloned(source@[i], chunk@[i]),
            {
                chunk.push(source[j].clone());
            }
            chunks.push(chunk);
            if size <= usize::MAX / 2 {
                size = size * 2;
            }
        }
        let r = Registry { chunks, len: self.len, _marker: PhantomData };
        proof {
            if self.wf() {
                assert(r.wf());
                assert forall|i: int| #![trigger r@[i]] 0 <= i < r@.len() implies cloned(
                    self@[i],
                    r@[i],
                ) by {
                    self.lemma_place(i as nat);
                }
            }
        }
        r
    }
}

impl<Id: Identifier, T: PartialEq> PartialEq for Registry<Id, T> {
    fn eq(&self, other: &Self) -> (r: bool) {
        if self.len != other.len || self.chunks.len() != other.chunks.len() {
            return false;
        }
        for k in 0..self.chunks.len()
            invariant
                self.len == other.len,
                self.chunks@.len() == other.chunks@.len(),
                <T as PartialEqSpec>::obeys_eq_spec() ==> forall|i: int|
                    0 <= i < k ==> Self::chunk_eq(#[trigger] self.chunks@[i]@, other.chunks@[i]@),
        {
            let a = &self.chunks[k];
            let b = &other.chunks[k];
            if a.len() != b.len() {
                return false;
            }
            for j in 0..a.len()
                invariant
                    a@.len() == b@.len(),
                    a@ == self.chunks@[k as int]@,
                    b@ == other.chunks@[k as int]@,
                    k < self.chunks@.len(),
                    <T as PartialEqSpec>::obeys_eq_spec() ==> forall|i: int|
                        0 <= i < j ==> (#[trigger] a@[i]).eq_spec(&b@[i]),
            {
                if a[j] != b[j] {
                    return false;
                }
            }
        }
        true
    }
}

impl<Id: Identifier, T: PartialEq> vstd::std_specs::cmp::PartialEqSpecImpl for Registry<Id, T> {
    open spec fn obeys_eq_spec() -> bool {
        <T as PartialEqSpec>::obeys_eq_spec()
    }

    closed spec fn eq_spec(&self, other: &Self) -> bool {
        &&& self.len == other.len
        &&& self.chunks@.len() == other.chunks@.len()
        &&& forall|k: int|
            0 <= k < self.chunks@.len() ==> Self::chunk_eq(
                #[trigger] self.chunks@[k]@,
                other.chunks@[k]@,
            )
    }
}

impl<Id: Identifier, T: PartialEq> Registry<Id, T> {
    spec fn chunk_eq(a: Seq<T>, b: Seq<T>) -> bool {
        a.len() == b.len() && forall|j: int| 0 <= j < a.len() ==> (#[trigger] a[j]).eq_spec(&b[j])
    }

    /// Two registries are equal exactly when they hold equal elements in the same order.
    pub proof fn law_equal_by_elements(&self, other: &Self)
        requires
            self.wf(),
            other.wf(),
        ensures
            PartialEqSpec::eq_spec(self, other) <==> self@.len() == other@.len() && forall|i: int|
                0 <= i < self@.len() ==> (#[trigger] self@[i]).eq_spec(&other@[i]),
    {
        if PartialEqSpec::eq_spec(self, other) {
            assert forall|i: int| 0 <= i < self@.len() implies (#[trigger] self@[i]).eq_spec(
                &other@[i],
            ) by {
                self.lemma_place(i as nat);
                assert(Self::chunk_eq(
                    self.chunks@[chunk_of(i as nat) as int]@,
                    other.chunks@[chunk_of(i as nat) as int]@,
                ));
            }
        }
        if self@.len() == other@.len() && (forall|i: int|
            0 <= i < self@.len() ==> (#[trigger] self@[i]).eq_spec(&other@[i])) && self.len > 0 {
            let last = (self.len - 1) as nat;
            lemma_locate(last);
            assert forall|k: int| 0 <= k < self.chunks@.len() implies Self::chunk_eq(
                #[trigger] self.chunks@[k]@,
                other.chunks@[k]@,
            ) by {
                let a = self.chunks@[k]@;
                let b = other.chunks@[k]@;
                assert(a.len() == b.len());
                assert forall|j: int| 0 <= j < a.len() implies (#[trigger] a[j]).eq_spec(&b[j]) by {
                    let n = chunk_size(k as nat) - 1 + j;
                    lemma_chunk_size_monotonic(k as nat, k as nat);
                    if k < chunk_of(last) {
                        lemma_chunk_size_monotonic((k + 1) as nat, chunk_of(last));
                    }
                    lemma_chunk_unique(n as nat, k as nat);
                    assert(self@[n].eq_spec(&other@[n]));
                }
            }
        }
    }
}

/// Walks a [`Registry`] in insertion order.
pub struct Iter<'a, Id: Identifier, T> {
    registry: &'a Registry<Id, T>,
    index: usize,
}

impl<'a, Id: Identifier, T> Iter<'a, Id, T> {
    pub closed spec fn wf(&self) -> bool {
        self.registry.wf() && self.index <= self.registry@.len()
    }

    /// All the elements that the walk covers.
    pub closed spec fn items(&self) -> Seq<T> {
        self.registry@
    }

    /// How many elements have been handed out.
    pub closed spec fn position(&self) -> nat {
        self.index as nat
    }

    /// The next element with its identifier, `None` at the end.
    pub fn next(&mut self) -> (item: Option<Identified<Id, &'a T>>)
        requires
            old(self).wf(),
        ensures
            final(self).wf(),
            final(self).items() == old(self).items(),
            match item {
                Some(item) => {
                    &&& old(self).position() < old(self).items().len()
                    &&& item.id == Id::spec_from_index(old(self).position() as usize)
                    &&& *item.inner == old(self).items()[old(self).position() as int]
                    &&& final(self).position() == old(self).position() + 1
                },
                None => old(self).position() == old(self).items().len() && final(self).position()
                    == old(self).position(),
            },
    {
        if self.index < self.registry.len() {
            let n: usize = self.index;
            self.index = n + 1;
            Some(Identified::new(Id::from_usize(n), self.registry.at(n)))
        } else {
            None
        }
    }
}

/// One mutable reference per element of a slice, in order.
pub(crate) fn slice_refs_mut<'a, T>(slice: &'a mut [T]) -> (refs: Vec<&'a mut T>)
    ensures
        refs@.len() == old(slice)@.len(),
        final(slice)@.len() == old(slice)@.len(),
        forall|i: int|
            #![trigger refs@[i]]
            0 <= i < refs@.len() ==> *refs@[i] == old(slice)@[i] && *final(refs@[i])
                == final(slice)@[i],
{
    let mut refs: Vec<&'a mut T> = Vec::new();
    let mut rest: &'a mut [T] = slice;
    let ghost whole = rest@;
    while rest.len() > 0
        invariant
            refs@.len() + rest@.len() == whole.len(),
            rest@ == whole.subrange(refs@.len() as int, whole.len() as int),
            after_borrow(slice)@ =~= Seq::new(refs@.len(), |i: int| *final(refs@[i])) + final(rest)@,
            forall|i: int|
                #![trigger refs@[i]]
                0 <= i < refs@.len() ==> *refs@[i] == whole[i],
        decreases rest@.len(),
    {
        let (head, tail) = rest.split_at_mut(1);
        refs.push(&mut head[0]);
        rest = tail;
    }
    refs
}

/// Putting back what a replacement took out restores a registry, and only the replaced
/// element differs in between.
pub proof fn law_replacing_back_restores<T>(items: Seq<T>, i: int, value: T)
    requires
        0 <= i < items.len(),
    ensures
        items.update(i, value).update(i, items[i]) == items,
        forall|k: int|
            0 <= k < items.len() && k != i ==> #[trigger] items.update(i, value)[k] == items[k],
{
    assert(items.update(i, value).update(i, items[i]) =~= items);
}

/// Identifiers are dense, and a push leaves every earlier element where it was.
pub proof fn law_push_keeps_earlier_elements<T>(items: Seq<T>, value: T)
    ensures
        items.push(value).len() == items.len() + 1,
        items.push(value)[items.len() as int] == value,
        forall|k: int| 0 <= k < items.len() ==> #[trigger] items.push(value)[k] == items[k],
{
}

} // verus!
