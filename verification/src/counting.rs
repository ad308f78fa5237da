//! How many distinct numbers fit into a range.
use vstd::prelude::*;
use vstd::set_lib::{lemma_int_range, lemma_len_subset, set_int_range};

verus! {

/// Distinct numbers out of a range are no more than the range is long.
pub proof fn lemma_distinct_in_range(s: Seq<int>, lo: int, hi: int)
    requires
        lo <= hi,
        s.no_duplicates(),
        forall|i: int| 0 <= i < s.len() ==> lo <= #[trigger] s[i] < hi,
    ensures
        s.len() <= hi - lo,
{
    s.unique_seq_to_set();
    lemma_int_range(lo, hi);
    assert(s.to_set().subset_of(set_int_range(lo, hi)));
    lemma_len_subset(s.to_set(), set_int_range(lo, hi));
}

/// As many distinct numbers as the range is long cover all of it.
pub proof fn lemma_distinct_fill_range(s: Seq<int>, lo: int, hi: int, x: int)
    requires
        lo <= x < hi,
        s.len() == hi - lo,
        s.no_duplicates(),
        forall|i: int| 0 <= i < s.len() ==> lo <= #[trigger] s[i] < hi,
    ensures
        s.contains(x),
{
    if !s.contains(x) {
        let t = s.push(x);
        assert forall|i: int, j: int| 0 <= i < t.len() && 0 <= j < t.len() && i != j implies t[i]
            != t[j] by {
            if i == s.len() {
                assert(s.contains(t[j]));
            } else if j == s.len() {
                assert(s.contains(t[i]));
            }
        }
        lemma_distinct_in_range(t, lo, hi);
    }
}

/// How many entries of `row` are set.
pub open spec fn count_true(row: Seq<bool>) -> nat
    decreases row.len(),
{
    if row.len() == 0 {
        0
    } else {
        count_true(row.drop_last()) + if row.last() {
            1nat
        } else {
            0
        }
    }
}

/// Fewer entries are set where none is set that was not set before, and one is gone.
pub proof fn lemma_count_shrinks(r: Seq<bool>, s: Seq<bool>)
    requires
        r.len() == s.len(),
        forall|i: int| 0 <= i < r.len() && #[trigger] r[i] ==> s[i],
    ensures
        count_true(r) <= count_true(s),
        (exists|i: int| 0 <= i < r.len() && !#[trigger] r[i] && s[i]) ==> count_true(r) < count_true(s),
    decreases r.len(),
{
    if r.len() > 0 {
        lemma_count_shrinks(r.drop_last(), s.drop_last());
        if exists|i: int| 0 <= i < r.len() && !#[trigger] r[i] && s[i] {
            let i = choose|i: int| 0 <= i < r.len() && !#[trigger] r[i] && s[i];
            if i < r.len() - 1 {
                assert(!r.drop_last()[i] && s.drop_last()[i]);
            }
        }
    }
}

/// Setting one more entry raises the count by one.
pub proof fn lemma_count_set(row: Seq<bool>, i: int)
    requires
        0 <= i < row.len(),
        !row[i],
    ensures
        count_true(row.update(i, true)) == count_true(row) + 1,
    decreases row.len(),
{
    let after = row.update(i, true);
    if i == row.len() - 1 {
        assert(after.drop_last() =~= row.drop_last());
    } else {
        assert(after.drop_last() =~= row.drop_last().update(i, true));
        lemma_count_set(row.drop_last(), i);
    }
}

pub proof fn lemma_count_bound(row: Seq<bool>)
    ensures
        count_true(row) <= row.len(),
    decreases row.len(),
{
    if row.len() > 0 {
        lemma_count_bound(row.drop_last());
    }
}

/// The sum of a list.
pub open spec fn total(list: Seq<nat>) -> nat
    decreases list.len(),
{
    if list.len() == 0 {
        0
    } else {
        total(list.drop_last()) + list.last()
    }
}

/// Changing one number changes the sum by as much.
pub proof fn lemma_total_update(list: Seq<nat>, i: int, x: nat)
    requires
        0 <= i < list.len(),
    ensures
        total(list.update(i, x)) + list[i] == total(list) + x,
    decreases list.len(),
{
    let after = list.update(i, x);
    if i == list.len() - 1 {
        assert(after.drop_last() =~= list.drop_last());
    } else {
        assert(after.drop_last() =~= list.drop_last().update(i, x));
        lemma_total_update(list.drop_last(), i, x);
    }
}

/// Numbers picked from distinct places of a list sum up to no more than the list.
pub proof fn lemma_distinct_total(list: Seq<nat>, places: Seq<int>, picked: Seq<nat>)
    requires
        places.no_duplicates(),
        picked.len() == places.len(),
        forall|i: int| 0 <= i < places.len() ==> 0 <= #[trigger] places[i] < list.len(),
        forall|i: int| 0 <= i < picked.len() ==> #[trigger] picked[i] <= list[places[i]],
    ensures
        total(picked) <= total(list),
    decreases places.len(),
{
    if places.len() > 0 {
        let last = places.len() - 1;
        let x = places[last];
        let less = list.update(x, 0);
        assert(picked[last] <= list[places[last]]);
        lemma_total_update(list, x, 0);
        assert forall|i: int| 0 <= i < picked.drop_last().len() implies #[trigger] picked.drop_last()[i]
            <= less[places.drop_last()[i]] by {
            assert(picked[i] <= list[places[i]]);
            assert(places[i] != places[last]);
        }
        lemma_distinct_total(less, places.drop_last(), picked.drop_last());
    }
}

} // verus!
