use jstd::intern::{Intern, StringPool};
use jstd::num_ref::BaseRef;
use jstd::recycling_arena::RecyclingArena;
use jstd::registry::{locate, Identifier, Registry};
use jstd::stable_arena::{sum_reserved, StableArena, StableArenaWire, WireError};

#[derive(Copy, Clone, Debug, PartialEq, Eq)]
struct Id(usize);

impl Identifier for Id {
    fn spec_index(self) -> usize {
        self.to_usize()
    }

    fn spec_from_index(n: usize) -> Self {
        Self::from_usize(n)
    }

    fn lemma_from_index(self) {}

    fn from_usize(n: usize) -> Self {
        Self(n)
    }

    fn to_usize(self) -> usize {
        self.0
    }
}

/// An identifier narrower than an index.
#[derive(Copy, Clone, Debug, PartialEq, Eq)]
struct Id32(u32);

impl Identifier for Id32 {
    fn spec_index(self) -> usize {
        self.to_usize()
    }

    fn spec_from_index(n: usize) -> Self {
        Self::from_usize(n)
    }

    fn lemma_from_index(self) {}

    fn from_usize(n: usize) -> Self {
        Self(n as u32)
    }

    fn to_usize(self) -> usize {
        self.0 as usize
    }
}

fn address<T>(r: &T) -> String {
    format!("{:p}", r)
}

// Registry.

/// Segment math places element `n` in chunk `floor(log2(n+1))`.
#[test]
fn locate_matches_doubling_layout() {
    assert_eq!(locate(0), (0, 0)); // chunk 0 (size 1)
    assert_eq!(locate(1), (1, 0)); // chunk 1 (size 2)
    assert_eq!(locate(2), (1, 1));
    assert_eq!(locate(3), (2, 0)); // chunk 2 (size 4)
    assert_eq!(locate(6), (2, 3));
    assert_eq!(locate(7), (3, 0)); // chunk 3 (size 8)
}

/// Dense ids, `len`, and index order survive spanning many chunks.
#[test]
fn push_index_iter_across_chunks() {
    let mut reg = Registry::<Id, usize>::default();
    let ids: Vec<Id> = (0..1000).map(|v| reg.push(v)).collect();
    assert_eq!(reg.len(), 1000);
    for (i, &id) in ids.iter().enumerate() {
        assert_eq!(id.to_usize(), i);
        assert_eq!(reg[id], i);
    }
    let mut seen: Vec<usize> = Vec::new();
    let mut items = reg.iter();
    while let Some(item) = items.next() {
        seen.push(*item.inner);
    }
    assert_eq!(seen, (0..1000).collect::<Vec<_>>());
}

/// The core invariant: an element's address is stable across later pushes
/// (later pushes only append new chunks; existing chunks never reallocate).
#[test]
fn element_address_is_stable_across_pushes() {
    let mut reg = Registry::<Id, usize>::default();
    let first = reg.push(42);
    let addr = address(&reg[first]);
    for v in 0..10_000 {
        reg.push(v);
    }
    assert_eq!(address(&reg[first]), addr, "address moved after growth");
    assert_eq!(reg[first], 42);
}

/// `replace` swaps contents in place, returning the old value and leaving the
/// slot's address (and all other ids) untouched.
#[test]
fn replace_swaps_in_place() {
    let mut reg = Registry::<Id, i32>::default();
    let a = reg.push(1);
    let b = reg.push(2);
    let addr_b = address(&reg[b]);
    let old = reg.replace(b, 99);
    assert_eq!(old, 2);
    assert_eq!(reg[b], 99);
    assert_eq!(reg[a], 1, "other ids untouched");
    assert_eq!(address(&reg[b]), addr_b, "slot address stable");
    assert_eq!(reg.len(), 2, "len unchanged");
}

/// `select_mut` returns disjoint mutable borrows in the caller's id order
/// (not ascending id order), spanning multiple chunks, and lets each be
/// written independently.
#[test]
fn select_mut_disjoint_in_input_order() {
    let mut reg = Registry::<Id, usize>::default();
    let ids: Vec<Id> = (0..100).map(|v| reg.push(v)).collect();

    // Deliberately out of order and spanning chunk boundaries.
    let picked = [ids[7], ids[0], ids[63], ids[64], ids[2]];
    let refs = reg.select_mut(&picked);
    assert_eq!(refs.len(), picked.len());
    // Order matches `picked`, not ascending id order.
    assert_eq!(refs.iter().map(|r| **r).collect::<Vec<_>>(), vec![7, 0, 63, 64, 2]);
    // Disjoint: mutate every borrow, then observe all writes landed.
    for r in refs {
        *r += 1000;
    }
    for &id in &picked {
        assert_eq!(reg[id], id.to_usize() + 1000);
    }
    // Untouched ids are unchanged.
    assert_eq!(reg[ids[1]], 1);
}

/// Rebuilding from a flat element sequence reproduces a chunked registry equal to
/// the original, spanning several chunks.
#[test]
fn rebuild_from_flat_sequence() {
    let reg: Registry<Id, i32> = Registry::from_items((0..300).collect());
    let mut flat: Vec<i32> = Vec::new();
    let mut items = reg.iter();
    while let Some(item) = items.next() {
        flat.push(*item.inner);
    }
    let back: Registry<Id, i32> = Registry::from_items(flat);
    assert!(reg == back);
    assert_eq!(back.len(), 300);
}

/// Clone preserves contents and the never-realloc stability invariant: a
/// clone's last (partial) chunk must still absorb a push without moving its
/// existing elements.
#[test]
fn clone_preserves_stability() {
    let mut reg = Registry::<Id, usize>::default();
    for v in 0..5 {
        reg.push(v); // ends mid-chunk (chunk 2 holds indices 3,4 of capacity 4)
    }
    let mut cloned = reg.clone();
    assert!(reg == cloned);
    let last = Id(4);
    let addr = address(&cloned[last]);
    cloned.push(99); // fills the partial chunk without reallocating it
    assert_eq!(address(&cloned[last]), addr, "clone's chunk reallocated");
    assert!(reg != cloned);
}

#[test]
fn registry_hands_out_and_takes_apart_its_elements() {
    let mut reg = Registry::<Id, i32>::from_items(vec![1, 2, 3]);
    assert!(!reg.is_empty());
    assert_eq!(*reg.get(Id(1)).inner, 2);
    *reg.get_mut(Id(1)).inner = 20;
    for item in reg.iter_mut() {
        *item.inner += 1;
    }
    let items: Vec<(usize, i32)> =
        reg.into_items().into_iter().map(|item| (item.id.to_usize(), item.inner)).collect();
    assert_eq!(items, vec![(0, 2), (1, 21), (2, 4)]);
}

// References with a context.

#[test]
fn constructors_keep_context_and_identifier() {
    let reference = BaseRef::new("context", 7_usize);
    let from_id = BaseRef::from_id("other", 9_usize);

    assert_eq!(reference.ctx, "context");
    assert_eq!(reference.id, 7);
    assert_eq!(from_id.ctx, "other");
    assert_eq!(from_id.id, 9);
}

#[test]
fn mutable_context_reference_converts_to_shared_reference() {
    let mut context = String::from("context");
    let mutable = BaseRef::new(&mut context, 3_usize);
    let shared: BaseRef<&String, usize> = mutable.into();

    assert_eq!(shared.id, 3);
    assert_eq!(shared.ctx, "context");
}

// Recycling arena.

#[test]
fn removed_slots_are_reused_last_first() {
    let mut arena = RecyclingArena::<Id32, _>::default();
    let a = arena.push("a");
    let b = arena.push("b");
    let c = arena.push("c");
    assert_eq!(arena.remove(b), "b");
    assert_eq!(arena.remove(a), "a");

    assert_eq!(arena.push("d"), a);
    assert_eq!(arena.push("e"), b);
    assert_eq!(arena.push("f"), Id32(3));
    assert_eq!(
        arena.iter().iter().map(|entry| entry.id).collect::<Vec<_>>(),
        vec![a, b, c, Id32(3)]
    );
}

#[test]
fn access_mutation_iteration_and_clear_cover_live_and_free_slots() {
    let mut arena = RecyclingArena::<Id32, String>::default();
    assert!(arena.is_empty());
    assert_eq!(arena.len(), 0);

    let a = arena.push("a".into());
    let b = arena.push("b".into());
    let c = arena.push("c".into());
    assert_eq!(arena.len(), 3);
    assert!(arena.contains(a));
    assert_eq!(arena.get(a).map(|entry| entry.inner.as_str()), Some("a"));

    arena.get_mut(a).unwrap().inner.push('!');
    arena.get_mut(c).unwrap().inner.push('?');
    assert_eq!(&arena[a], "a!");
    assert_eq!(&arena[c], "c?");

    assert_eq!(arena.remove(b), "b");
    assert_eq!(arena.len(), 2);
    assert!(!arena.is_empty());
    assert!(!arena.contains(b));
    assert!(arena.get(b).is_none());
    assert!(arena.get_mut(b).is_none());
    assert!(!arena.contains(Id32(99)));
    assert!(arena.get(Id32(99)).is_none());

    let entries: Vec<_> =
        arena.iter().iter().map(|entry| (entry.id, entry.inner.to_string())).collect();
    assert_eq!(entries, vec![(a, "a!".to_string()), (c, "c?".to_string())]);

    arena.shrink_to_fit();
    assert_eq!(&arena[a], "a!");
    let copy = arena.clone();
    assert_eq!(&copy[c], "c?");
    arena.clear();
    assert!(arena.is_empty());
    assert_eq!(arena.len(), 0);
    assert!(!arena.contains(a));
    assert_eq!(arena.push("fresh".into()), Id32(0));
}

#[test]
fn mixed_operations_match_an_option_vec_model() {
    let mut arena = RecyclingArena::<Id32, usize>::default();
    let mut model: Vec<Option<usize>> = Vec::new();
    let mut live: Vec<usize> = Vec::new();
    let mut free: Vec<usize> = Vec::new();

    for value in 0..200 {
        if value % 3 == 2 && !live.is_empty() {
            let raw = live.remove(0);
            assert_eq!(arena.remove(Id32::from_usize(raw)), model[raw].take().unwrap());
            free.push(raw);
        } else {
            let expected = free.pop().unwrap_or(model.len());
            if expected == model.len() {
                model.push(Some(value));
            } else {
                model[expected] = Some(value);
            }
            assert_eq!(arena.push(value), Id32::from_usize(expected));
            live.push(expected);
        }

        assert_eq!(arena.len(), model.iter().flatten().count());
        assert_eq!(
            arena
                .iter()
                .iter()
                .map(|entry| (entry.id.to_usize(), *entry.inner))
                .collect::<Vec<_>>(),
            model
                .iter()
                .enumerate()
                .filter_map(|(id, value)| value.map(|value| (id, value)))
                .collect::<Vec<_>>()
        );
    }
}

#[test]
fn items_are_the_identifiers_that_the_arena_contains() {
    let mut arena = RecyclingArena::<Id32, char>::default();
    assert!(arena.is_empty());
    let ids: Vec<Id32> = "abcde".chars().map(|c| arena.push(c)).collect();
    arena.remove(ids[3]);
    arena.remove(ids[0]);
    assert_eq!(arena.push('x'), ids[0]);
    let listed: Vec<Id32> = arena.iter().iter().map(|entry| entry.id).collect();
    let contained: Vec<Id32> =
        (0..9).map(Id32::from_usize).filter(|&id| arena.contains(id)).collect();
    assert_eq!(listed, contained);
    assert_eq!(arena.len(), listed.len());
    assert_eq!(arena.is_empty(), listed.is_empty());
}

// Stable arena.

#[test]
fn removal_repairs_moved_slot_and_never_reuses_ids() {
    let mut arena = StableArena::<Id32, &str>::default();
    let a = arena.push("a");
    let b = arena.push("b");
    let c = arena.push("c");

    assert_eq!(arena.remove(b), "b");
    assert!(!arena.contains(b));
    assert_eq!(arena.get(b).map(|entry| *entry.inner), None);
    assert_eq!(arena[c], "c");
    assert_eq!(arena[a], "a");
    assert_eq!(arena.iter().iter().map(|entry| entry.id).collect::<Vec<_>>(), [a, c]);

    let d = arena.push("d");
    assert_eq!(d.to_usize(), 3);
    assert_eq!(arena.issued_len(), 4);
    assert_eq!(arena.len(), 3);
}

#[test]
fn removes_first_last_and_only_entries() {
    let mut arena = StableArena::<Id32, i32>::default();
    let a = arena.push(1);
    let b = arena.push(2);
    let c = arena.push(3);
    assert_eq!(arena.remove(a), 1);
    assert_eq!(arena.remove(c), 3);
    assert_eq!(arena.remove(b), 2);
    assert!(arena.is_empty());
    assert_eq!(arena.issued_len(), 3);
}

#[test]
fn mutable_and_consuming_iteration_keep_stable_ids() {
    let mut arena = StableArena::<Id32, i32>::default();
    let a = arena.push(1);
    let b = arena.push(2);
    let c = arena.push(3);
    arena.remove(b);
    for entry in arena.iter_mut() {
        *entry.inner += 10;
    }
    let entries = arena
        .into_items()
        .into_iter()
        .map(|entry| (entry.id, entry.inner))
        .collect::<Vec<_>>();
    assert_eq!(entries, [(a, 11), (c, 13)]);
}

#[test]
fn shrink_to_fit_preserves_ids_order_and_liveness() {
    let mut arena = StableArena::<Id32, u64>::default();
    let ids = (0..1_000).map(|step| arena.push(step)).collect::<Vec<_>>();
    for id in &ids[..900] {
        arena.remove(*id);
    }
    let before = arena.clone();
    arena.shrink_to_fit();
    assert_eq!(arena, before);
    assert!(arena.capacity() < 1_000);
    assert_eq!(arena.len(), 100);
    assert_eq!(arena.issued_len(), 1_000);
    assert_eq!(arena[ids[950]], 950);
    let next = arena.push(1_000);
    assert_eq!(next.to_usize(), 1_000);
}

#[test]
fn clone_and_equality_preserve_holes_and_physical_order() {
    let mut arena = StableArena::<Id32, i32>::default();
    arena.push(1);
    let removed = arena.push(2);
    arena.push(3);
    arena.remove(removed);
    let clone = arena.clone();
    assert_eq!(clone, arena);
    assert_eq!(
        clone.iter().iter().map(|entry| entry.id).collect::<Vec<_>>(),
        arena.iter().iter().map(|entry| entry.id).collect::<Vec<_>>()
    );
    // A hole is part of what is compared.
    let mut other = StableArena::<Id32, i32>::default();
    other.push(1);
    other.push(3);
    assert_ne!(other, arena);
}

fn owned(arena: &StableArena<Id32, String>) -> StableArenaWire<String> {
    let wire = arena.to_wire();
    StableArenaWire {
        next_id: wire.next_id,
        entries: wire.entries.iter().map(|(raw, value)| (*raw, value.to_string())).collect(),
    }
}

#[test]
fn serde_round_trip_preserves_holes_order_and_cursor() {
    let mut arena = StableArena::<Id32, String>::default();
    let a = arena.push("a".into());
    let b = arena.push("b".into());
    let c = arena.push("c".into());
    arena.remove(a);
    arena.remove(b);
    let wire = owned(&arena);
    let bytes = bincode::serde::encode_to_vec(
        (wire.next_id, &wire.entries),
        bincode::config::standard(),
    )
    .unwrap();
    let ((next_id, entries), used): ((usize, Vec<(usize, String)>), usize) =
        bincode::serde::decode_from_slice(&bytes, bincode::config::standard()).unwrap();
    assert_eq!(used, bytes.len());
    let mut decoded =
        StableArena::<Id32, String>::from_wire(StableArenaWire { next_id, entries }).unwrap();
    assert_eq!(decoded, arena);
    assert_eq!(decoded[c], "c");
    let d = decoded.push("d".into());
    assert_eq!(d.to_usize(), 3);

    decoded.remove(c);
    decoded.remove(d);
    let empty = StableArena::<Id32, String>::from_wire(owned(&decoded)).unwrap();
    assert!(empty.is_empty());
    assert_eq!(empty.issued_len(), 4);
}

#[test]
fn malformed_wire_is_rejected() {
    let duplicate = StableArenaWire { next_id: 2, entries: vec![(0, 1_i32), (0, 2)] };
    assert_eq!(
        StableArena::<Id32, i32>::from_wire(duplicate).err(),
        Some(WireError::Duplicate(0))
    );

    let outside = StableArenaWire { next_id: 1, entries: vec![(1, 1_i32)] };
    assert_eq!(StableArena::<Id32, i32>::from_wire(outside).err(), Some(WireError::Unissued(1)));

    let too_wide =
        StableArenaWire { next_id: u32::MAX as usize + 2, entries: Vec::<(usize, i32)>::new() };
    assert_eq!(StableArena::<Id32, i32>::from_wire(too_wide).err(), Some(WireError::NextIdTooWide));

    let exhausted = StableArenaWire { next_id: usize::MAX, entries: Vec::<(usize, i32)>::new() };
    assert_eq!(
        StableArena::<Id, i32>::from_wire(exhausted).err(),
        Some(WireError::NextIdExhausted)
    );
}

/// An identifier that has no room for odd indices.
#[derive(Copy, Clone, Debug, PartialEq, Eq)]
struct EvenId(usize);

impl Identifier for EvenId {
    fn spec_index(self) -> usize {
        self.to_usize()
    }

    fn spec_from_index(n: usize) -> Self {
        Self::from_usize(n)
    }

    fn lemma_from_index(self) {}

    fn from_usize(n: usize) -> Self {
        Self(n / 2)
    }

    fn to_usize(self) -> usize {
        self.0 * 2
    }
}

#[test]
fn an_identifier_that_does_not_fit_is_rejected() {
    let wire = StableArenaWire { next_id: 3, entries: vec![(1, 'x')] };
    assert_eq!(StableArena::<EvenId, char>::from_wire(wire).err(), Some(WireError::TooWide(1)));
}

#[test]
fn deterministic_mixed_operations_match_option_vec_model() {
    let mut arena = StableArena::<Id32, u64>::default();
    let mut model: Vec<Option<u64>> = Vec::new();
    let mut state = 0x1234_5678_9abc_def0_u64;

    for step in 0..2_000_u64 {
        state = state.wrapping_mul(6_364_136_223_846_793_005).wrapping_add(1);
        let live = model
            .iter()
            .enumerate()
            .filter_map(|(id, value)| value.as_ref().map(|_| id))
            .collect::<Vec<_>>();
        if live.is_empty() || state & 3 != 0 {
            let id = arena.push(step);
            assert_eq!(id.to_usize(), model.len());
            model.push(Some(step));
        } else {
            let raw = live[state as usize % live.len()];
            let expected = model[raw].take().unwrap();
            assert_eq!(arena.remove(Id32::from_usize(raw)), expected);
        }

        for (raw, expected) in model.iter().enumerate() {
            assert_eq!(
                arena.get(Id32::from_usize(raw)).map(|entry| *entry.inner),
                *expected,
                "model mismatch at step {step}, id {raw}"
            );
        }
    }
}

#[test]
fn public_views_iteration_and_capacity_accounting_work() {
    let mut arena = StableArena::<Id32, i32>::default();
    assert!(arena.is_empty());
    assert_eq!(arena.structural_bytes(), 0);

    let first = arena.push(1);
    let second = arena.push(2);
    let capacity_before = arena.capacity();
    assert!(arena.structural_bytes() >= capacity_before * std::mem::size_of::<i32>());
    assert_eq!(arena.get(first).unwrap().id, first);
    *arena.get_mut(second).unwrap().inner = 20;
    *arena.get_mut(first).unwrap().inner = 10;
    assert_eq!(arena[first], 10);
    assert_eq!(arena[second], 20);

    let entries = arena.iter();
    assert_eq!(entries.len(), 2);
    assert_eq!(entries[0].id, first);
    assert_eq!(entries[1].id, second);
    assert!(format!("{arena:?}").contains("issued"));

    let rebuilt: StableArena<Id32, i32> = StableArena::from_items(vec![3, 4]);
    assert_eq!(rebuilt.iter().iter().map(|entry| *entry.inner).collect::<Vec<_>>(), [3, 4]);
}

#[test]
fn reserved_bytes_are_summed_up_without_wrapping() {
    assert_eq!(sum_reserved((2, 8), (3, 4), (5, 8)), 68);
    assert_eq!(sum_reserved((usize::MAX, 2), (1, 1), (0, 8)), usize::MAX);
}

// Interned strings.

#[test]
fn interning_hands_out_the_same_string_again() {
    let mut pool = StringPool::default();
    let first = pool.intern(&String::from("word"));
    let second = pool.intern(&String::from("word"));
    let other = pool.intern("other");
    assert_eq!(first, "word");
    assert_eq!(address(&first.as_bytes()[0]), address(&second.as_bytes()[0]));
    assert_eq!(other, "other");
}

#[test]
fn interning_goes_through_lists_and_options() {
    let mut pool = StringPool::default();
    let list: Vec<Option<&'static str>> =
        vec![Some("a"), None, Some("b"), Some("a")].intern(&mut pool);
    assert_eq!(list, vec![Some("a"), None, Some("b"), Some("a")]);
    let again = pool.intern("a");
    assert_eq!(
        address(&again.as_bytes()[0]),
        address(&list[0].unwrap().as_bytes()[0])
    );
}
