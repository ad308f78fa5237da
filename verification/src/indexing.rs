//! Positions of identifiers in lists.
use crate::fx;
use crate::registry::{lemma_id_injective, Identifier};
use rustc_hash::FxHashMap;
use vstd::prelude::*;

verus! {

/// `number` leads from the index of each identifier of `list` to its position, and from no
/// other.
pub open spec fn numbers_list<Id: Identifier>(number: Map<usize, usize>, list: Seq<Id>) -> bool {
    &&& forall|k: int|
        0 <= k < list.len() ==> number.contains_key(#[trigger] list[k].spec_index())
            && number[list[k].spec_index()] == k
    &&& forall|n: Id|
        number.contains_key(#[trigger] n.spec_index()) ==> number[n.spec_index()] < list.len()
            && list[number[n.spec_index()] as int] == n
}

/// The positions of distinct identifiers.
pub(crate) fn index_ids<Id: Identifier>(list: &Vec<Id>) -> (number: FxHashMap<usize, usize>)
    requires
        list@.no_duplicates(),
    ensures
        numbers_list(number@, list@),
{
    let mut number: FxHashMap<usize, usize> = fx::map_new();
    for i in 0..list.len()
        invariant
            list@.no_duplicates(),
            numbers_list(number@, list@.subrange(0, i as int)),
    {
        let id = list[i];
        let ghost before = number@;
        let ghost done = list@.subrange(0, i as int);
        let ghost more = list@.subrange(0, i + 1);
        fx::map_insert(&mut number, id.to_usize(), i);
        proof {
            assert forall|k: int| 0 <= k < more.len() implies number@.contains_key(
                #[trigger] more[k].spec_index(),
            ) && number@[more[k].spec_index()] == k by {
                lemma_id_injective(more[k], id);
                if k < i {
                    assert(done[k] == more[k]);
                    assert(before.contains_key(done[k].spec_index()));
                    assert(list@[k] != list@[i as int]);
                }
            }
            assert forall|n: Id| number@.contains_key(#[trigger] n.spec_index()) implies number@[n.spec_index()]
                < more.len() && more[number@[n.spec_index()] as int] == n by {
                lemma_id_injective(n, id);
                if n != id {
                    assert(before.contains_key(n.spec_index()));
                    assert(done[before[n.spec_index()] as int] == n);
                }
            }
        }
    }
    assert(list@.subrange(0, list@.len() as int) =~= list@);
    number
}

/// The position of `id` in the list that `number` numbers.
pub(crate) fn position<Id: Identifier>(
    number: &FxHashMap<usize, usize>,
    Ghost(list): Ghost<Seq<Id>>,
    id: Id,
) -> (at: Option<usize>)
    requires
        numbers_list(number@, list),
    ensures
        match at {
            Some(i) => i < list.len() && list[i as int] == id,
            None => !list.contains(id),
        },
{
    match fx::map_get(number, id.to_usize()) {
        Some(i) => Some(*i),
        None => {
            proof {
                if list.contains(id) {
                    let k = list.index_of(id);
                    assert(number@.contains_key(list[k].spec_index()));
                }
            }
            None
        },
    }
}

} // verus!
