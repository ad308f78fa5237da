//! Stable sorting by keys of three numbers.
use crate::counting::lemma_distinct_fill_range;
use vstd::prelude::*;

verus! {

/// A sort key; the components count from left to right.
pub type Key = (usize, usize, usize);

/// The element `i` comes before the element `j`: by its key, and by its place where the
/// keys are equal.
pub open spec fn comes_before(keys: Seq<Key>, i: usize, j: usize) -> bool {
    let (a, b) = (keys[i as int], keys[j as int]);
    if a.0 != b.0 {
        a.0 < b.0
    } else if a.1 != b.1 {
        a.1 < b.1
    } else if a.2 != b.2 {
        a.2 < b.2
    } else {
        i < j
    }
}

/// `order` lists places of `keys` from `lo` up to `hi`, each once, in sorted order.
pub open spec fn is_sorted_range(keys: Seq<Key>, order: Seq<usize>, lo: int, hi: int) -> bool {
    &&& order.len() == hi - lo
    &&& forall|i: int| 0 <= i < order.len() ==> lo <= #[trigger] order[i] < hi
    &&& forall|i: int, j: int|
        0 <= i < j < order.len() ==> comes_before(keys, #[trigger] order[i], #[trigger] order[j])
}

/// `order` lists every place of `keys` once, in sorted order.
pub open spec fn is_sorted_order(keys: Seq<Key>, order: Seq<usize>) -> bool {
    is_sorted_range(keys, order, 0, keys.len() as int)
}

/// A sorted order leaves no place out and repeats none.
pub proof fn lemma_sorted_order(keys: Seq<Key>, order: Seq<usize>)
    requires
        is_sorted_order(keys, order),
        keys.len() <= usize::MAX,
    ensures
        order.no_duplicates(),
        forall|i: int| 0 <= i < keys.len() ==> order.contains(#[trigger] (i as usize)),
{
    let places = Seq::new(order.len(), |i: int| order[i] as int);
    assert forall|i: int, j: int|
        0 <= i < order.len() && 0 <= j < order.len() && i != j implies order[i] != order[j] by {
        if i < j {
            assert(comes_before(keys, order[i], order[j]));
        } else {
            assert(comes_before(keys, order[j], order[i]));
        }
    }
    assert forall|i: int| 0 <= i < keys.len() implies order.contains(#[trigger] (i as usize)) by {
        lemma_distinct_fill_range(places, 0, keys.len() as int, i);
        let k = places.index_of(i);
        assert(order[k] == i as usize);
    }
}

fn is_before(keys: &Vec<Key>, i: usize, j: usize) -> (b: bool)
    requires
        i < keys@.len(),
        j < keys@.len(),
    ensures
        b == comes_before(keys@, i, j),
{
    let (a, b) = (keys[i], keys[j]);
    if a.0 != b.0 {
        a.0 < b.0
    } else if a.1 != b.1 {
        a.1 < b.1
    } else if a.2 != b.2 {
        a.2 < b.2
    } else {
        i < j
    }
}

fn merge(keys: &Vec<Key>, lo: usize, mid: usize, hi: usize, left: Vec<usize>, right: Vec<usize>) -> (order: Vec<
    usize,
>)
    requires
        lo <= mid <= hi <= keys@.len(),
        is_sorted_range(keys@, left@, lo as int, mid as int),
        is_sorted_range(keys@, right@, mid as int, hi as int),
    ensures
        is_sorted_range(keys@, order@, lo as int, hi as int),
{
    let mut order: Vec<usize> = Vec::new();
    let mut i: usize = 0;
    let mut j: usize = 0;
    while i < left.len() || j < right.len()
        invariant
            lo <= mid <= hi <= keys@.len(),
            is_sorted_range(keys@, left@, lo as int, mid as int),
            is_sorted_range(keys@, right@, mid as int, hi as int),
            i <= left@.len(),
            j <= right@.len(),
            order@.len() == i + j,
            forall|k: int| 0 <= k < order@.len() ==> lo <= #[trigger] order@[k] < hi,
            forall|k: int, l: int|
                0 <= k < l < order@.len() ==> comes_before(
                    keys@,
                    #[trigger] order@[k],
                    #[trigger] order@[l],
                ),
            forall|k: int, l: int|
                0 <= k < order@.len() && i <= l < left@.len() ==> comes_before(
                    keys@,
                    #[trigger] order@[k],
                    #[trigger] left@[l],
                ),
            forall|k: int, l: int|
                0 <= k < order@.len() && j <= l < right@.len() ==> comes_before(
                    keys@,
                    #[trigger] order@[k],
                    #[trigger] right@[l],
                ),
        decreases left@.len() - i + right@.len() - j,
    {
        if j >= right.len() || (i < left.len() && is_before(keys, left[i], right[j])) {
            let x: usize = left[i];
            proof {
                assert forall|l: int| j <= l < right@.len() implies comes_before(
                    keys@,
                    x,
                    #[trigger] right@[l],
                ) by {
                    if l > j {
                        assert(comes_before(keys@, right@[j as int], right@[l]));
                    }
                }
            }
            order.push(x);
            i = i + 1;
        } else {
            let x: usize = right[j];
            proof {
                assert forall|l: int| i <= l < left@.len() implies comes_before(
                    keys@,
                    x,
                    #[trigger] left@[l],
                ) by {
                    assert(left@[i as int] < mid <= x);
                    if l > i {
                        assert(comes_before(keys@, left@[i as int], left@[l]));
                    }
                }
            }
            order.push(x);
            j = j + 1;
        }
    }
    order
}

fn sort_range(keys: &Vec<Key>, lo: usize, hi: usize) -> (order: Vec<usize>)
    requires
        lo <= hi <= keys@.len(),
    ensures
        is_sorted_range(keys@, order@, lo as int, hi as int),
    decreases hi - lo,
{
    if hi - lo == 0 {
        return Vec::new();
    }
    if hi - lo == 1 {
        return vec![lo];
    }
    let mid: usize = lo + (hi - lo) / 2;
    let left = sort_range(keys, lo, mid);
    let right = sort_range(keys, mid, hi);
    merge(keys, lo, mid, hi, left, right)
}

/// The places of `keys` in sorted order; equal keys keep their order.
pub fn sorted_order(keys: &Vec<Key>) -> (order: Vec<usize>)
    ensures
        is_sorted_order(keys@, order@),
{
    sort_range(keys, 0, keys.len())
}

/// Picking every place of a list once rearranges the list.
pub proof fn lemma_rearranged<T>(list: Seq<T>, order: Seq<usize>, out: Seq<T>)
    requires
        order.len() == list.len(),
        out.len() == list.len(),
        order.no_duplicates(),
        forall|i: int| 0 <= i < order.len() ==> #[trigger] order[i] < list.len(),
        forall|i: int| 0 <= i < out.len() ==> #[trigger] out[i] == list[order[i] as int],
    ensures
        out.to_multiset() == list.to_multiset(),
    decreases list.len(),
{
    broadcast use vstd::seq_lib::group_to_multiset_ensures;

    if list.len() == 0 {
        assert(out =~= list);
    } else {
        let top: int = list.len() - 1;
        let places = order.map_values(|p: usize| p as int);
        crate::counting::lemma_distinct_fill_range(places, 0, list.len() as int, top);
        let at = choose|i: int| 0 <= i < places.len() && places[i] == top;
        let shorter = order.remove(at);
        assert forall|i: int| 0 <= i < shorter.len() implies #[trigger] shorter[i]
            < list.drop_last().len() by {
            let j = if i < at {
                i
            } else {
                i + 1
            };
            assert(shorter[i] == order[j]);
            assert(order[j] != order[at]);
        }
        assert forall|i: int, j: int|
            0 <= i < shorter.len() && 0 <= j < shorter.len() && i != j implies shorter[i]
            != shorter[j] by {
            let (i1, j1) = (
                if i < at {
                    i
                } else {
                    i + 1
                },
                if j < at {
                    j
                } else {
                    j + 1
                },
            );
            assert(order[i1] != order[j1]);
        }
        lemma_rearranged(list.drop_last(), shorter, out.remove(at));
        assert(list =~= list.drop_last().push(list.last()));
        assert(out.remove(at).insert(at, out[at]) =~= out);
        assert(out.to_multiset() =~= out.remove(at).to_multiset().insert(out[at]));
        assert(list.to_multiset() =~= list.drop_last().to_multiset().insert(list.last()));
    }
}

/// The order of pairs: by the first number, then by the second.
pub open spec fn pair_le(a: (usize, usize), b: (usize, usize)) -> bool {
    a.0 < b.0 || a.0 == b.0 && a.1 <= b.1
}

/// Pairs in ascending order.
pub open spec fn sorted_pairs(list: Seq<(usize, usize)>) -> Seq<(usize, usize)> {
    list.sort_by(|a: (usize, usize), b: (usize, usize)| pair_le(a, b))
}

/// Ascending pairs that rearrange a list are the sorted list.
pub proof fn lemma_sorted_pairs(list: Seq<(usize, usize)>, out: Seq<(usize, usize)>)
    requires
        out.to_multiset() == list.to_multiset(),
        forall|i: int, j: int| 0 <= i < j < out.len() ==> pair_le(#[trigger] out[i], #[trigger] out[j]),
    ensures
        out == sorted_pairs(list),
{
    let le = |a: (usize, usize), b: (usize, usize)| pair_le(a, b);
    list.lemma_sort_by_ensures(le);
    vstd::seq_lib::lemma_sorted_unique(out, sorted_pairs(list), le);
}

/// A sorted list rearranges the list and ascends.
pub proof fn lemma_pairs_are_sorted(list: Seq<(usize, usize)>)
    ensures
        sorted_pairs(list).to_multiset() == list.to_multiset(),
        sorted_pairs(list).len() == list.len(),
        forall|i: int, j: int|
            0 <= i < j < list.len() ==> pair_le(
                #[trigger] sorted_pairs(list)[i],
                #[trigger] sorted_pairs(list)[j],
            ),
{
    broadcast use vstd::seq_lib::group_to_multiset_ensures;

    let le = |a: (usize, usize), b: (usize, usize)| pair_le(a, b);
    list.lemma_sort_by_ensures(le);
    let out = sorted_pairs(list);
    assert(out.len() == out.to_multiset().len());
    assert forall|i: int, j: int| 0 <= i < j < out.len() implies pair_le(
        #[trigger] out[i],
        #[trigger] out[j],
    ) by {
        assert(le(out[i], out[j]));
    }
}

/// Sorts pairs.
pub fn sort_pairs(list: &Vec<(usize, usize)>) -> (out: Vec<(usize, usize)>)
    ensures
        out@ == sorted_pairs(list@),
{
    let mut keys: Vec<Key> = Vec::new();
    for i in 0..list.len()
        invariant
            keys@.len() == i,
            forall|k: int| 0 <= k < i ==> #[trigger] keys@[k] == (list@[k].0, list@[k].1, 0usize),
    {
        keys.push((list[i].0, list[i].1, 0));
    }
    let order = sorted_order(&keys);
    let mut out: Vec<(usize, usize)> = Vec::new();
    for i in 0..order.len()
        invariant
            out@.len() == i,
            keys@.len() == list@.len(),
            is_sorted_order(keys@, order@),
            forall|k: int| 0 <= k < i ==> #[trigger] out@[k] == list@[order@[k] as int],
    {
        out.push(list[order[i]]);
    }
    proof {
        lemma_sorted_order(keys@, order@);
        lemma_rearranged(list@, order@, out@);
        assert forall|i: int, j: int| 0 <= i < j < out@.len() implies pair_le(
            #[trigger] out@[i],
            #[trigger] out@[j],
        ) by {
            assert(comes_before(keys@, order@[i], order@[j]));
        }
        lemma_sorted_pairs(list@, out@);
    }
    out
}

} // verus!
