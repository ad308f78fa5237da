//! Lanes of a channel between two ranks.
//!
//! Jogs that overlap must not share a lane. Each jog, in the order given, takes the
//! top-most lane that no earlier jog overlapping it has taken.
use vstd::prelude::*;

verus! {

/// No earlier jog in this lane overlaps jog `i`. Row `i` of `overlaps` tells which of the
/// earlier jogs do.
pub open spec fn is_free(overlaps: Seq<Vec<bool>>, lanes: Seq<usize>, i: int, lane: int) -> bool {
    forall|j: int| 0 <= j < i && #[trigger] lanes[j] == lane ==> !overlaps[i]@[j]
}

/// Jog `i` has the first free lane.
pub open spec fn has_first_free(overlaps: Seq<Vec<bool>>, lanes: Seq<usize>, i: int) -> bool {
    &&& is_free(overlaps, lanes, i, lanes[i] as int)
    &&& forall|lane: int| 0 <= lane < lanes[i] ==> !#[trigger] is_free(overlaps, lanes, i, lane)
}

/// `count` lanes are in use.
pub open spec fn uses_lanes(lanes: Seq<usize>, count: int) -> bool {
    &&& forall|i: int| 0 <= i < lanes.len() ==> #[trigger] lanes[i] < count
    &&& forall|lane: int| 0 <= lane < count ==> #[trigger] lanes.contains(lane as usize)
}

/// Whether a lane is free for a jog.
fn check_lane(overlaps: &Vec<Vec<bool>>, lanes: &Vec<usize>, i: usize, lane: usize) -> (free: bool)
    requires
        i < overlaps@.len(),
        overlaps@[i as int]@.len() >= i,
        lanes@.len() == i,
    ensures
        free == is_free(overlaps@, lanes@, i as int, lane as int),
{
    for j in 0..i
        invariant
            i < overlaps@.len(),
            overlaps@[i as int]@.len() >= i,
            lanes@.len() == i,
            forall|k: int| 0 <= k < j && #[trigger] lanes@[k] == lane ==> !overlaps@[i as int]@[k],
    {
        if lanes[j] == lane && overlaps[i][j] {
            assert(lanes@[j as int] == lane);
            return false;
        }
    }
    true
}

/// The lane of each jog, and the number of lanes.
pub fn assign_lanes(overlaps: &Vec<Vec<bool>>) -> (res: (Vec<usize>, usize))
    requires
        forall|i: int| 0 <= i < overlaps@.len() ==> (#[trigger] overlaps@[i])@.len() >= i,
    ensures
        res.0@.len() == overlaps@.len(),
        forall|i: int|
            0 <= i < res.0@.len() ==> #[trigger] has_first_free(overlaps@, res.0@, i),
        uses_lanes(res.0@, res.1 as int),
{
    let mut lanes: Vec<usize> = Vec::new();
    let mut count: usize = 0;
    for i in 0..overlaps.len()
        invariant
            forall|i: int| 0 <= i < overlaps@.len() ==> (#[trigger] overlaps@[i])@.len() >= i,
            lanes@.len() == i,
            count <= i,
            forall|k: int| 0 <= k < i ==> #[trigger] has_first_free(overlaps@, lanes@, k),
            uses_lanes(lanes@, count as int),
    {
        let ghost before = lanes@;
        assert(overlaps@[i as int]@.len() >= i);
        let mut lane: usize = 0;
        while lane < count && !check_lane(overlaps, &lanes, i, lane)
            invariant
                i < overlaps@.len(),
                overlaps@[i as int]@.len() >= i,
                lanes@ == before,
                before.len() == i,
                lane <= count,
                forall|l: int|
                    0 <= l < lane ==> !#[trigger] is_free(overlaps@, before, i as int, l),
            decreases count - lane,
        {
            lane = lane + 1;
        }
        assert(is_free(overlaps@, before, i as int, lane as int)) by {
            if lane == count {
                assert forall|j: int| 0 <= j < i && #[trigger] before[j] == lane implies
                    !overlaps@[i as int]@[j] by {}
            }
        }
        lanes.push(lane);
        if lane == count {
            count = count + 1;
        }
        proof {
            assert forall|k: int| 0 <= k < i + 1 implies #[trigger] has_first_free(
                overlaps@,
                lanes@,
                k,
            ) by {
                lemma_prefix_lanes(overlaps@, before, lane, k);
                if k < i {
                    assert(has_first_free(overlaps@, before, k));
                }
            }
            assert forall|l: int| 0 <= l < count implies #[trigger] lanes@.contains(l as usize) by {
                if before.contains(l as usize) {
                    assert(lanes@[before.index_of(l as usize)] == l as usize);
                } else {
                    assert(lanes@[i as int] == l as usize);
                }
            }
        }
    }
    (lanes, count)
}

proof fn lemma_prefix_lanes(overlaps: Seq<Vec<bool>>, lanes: Seq<usize>, lane: usize, k: int)
    requires
        0 <= k <= lanes.len(),
    ensures
        forall|l: int| #[trigger]
            is_free(overlaps, lanes.push(lane), k, l) == is_free(overlaps, lanes, k, l),
{
    let more = lanes.push(lane);
    assert forall|l: int| #[trigger] is_free(overlaps, more, k, l) == is_free(overlaps, lanes, k, l) by {
        if is_free(overlaps, more, k, l) {
            assert forall|j: int| 0 <= j < k && #[trigger] lanes[j] == l implies !overlaps[k]@[j] by {
                assert(more[j] == lanes[j]);
            }
        }
        if is_free(overlaps, lanes, k, l) {
            assert forall|j: int| 0 <= j < k && #[trigger] more[j] == l implies !overlaps[k]@[j] by {
                assert(more[j] == lanes[j]);
            }
        }
    }
}

/// Jogs that overlap never share a lane.
pub proof fn law_overlapping_jogs_have_their_own_lanes(
    overlaps: Seq<Vec<bool>>,
    lanes: Seq<usize>,
    i: int,
    j: int,
)
    requires
        forall|i: int| 0 <= i < lanes.len() ==> #[trigger] has_first_free(overlaps, lanes, i),
        0 <= j < i < lanes.len(),
        overlaps[i]@[j],
    ensures
        lanes[i] != lanes[j],
{
    assert(has_first_free(overlaps, lanes, i));
    if lanes[j] == lanes[i] {
        assert(!overlaps[i]@[j]);
    }
}

/// Where no jog overlaps another, one lane serves all.
pub proof fn law_apart_jogs_share_a_lane(overlaps: Seq<Vec<bool>>, lanes: Seq<usize>, i: int)
    requires
        forall|i: int| 0 <= i < lanes.len() ==> #[trigger] has_first_free(overlaps, lanes, i),
        0 <= i < lanes.len(),
        forall|j: int| 0 <= j < i ==> !#[trigger] overlaps[i]@[j],
    ensures
        lanes[i] == 0,
{
    assert(has_first_free(overlaps, lanes, i));
    assert(is_free(overlaps, lanes, i, 0));
}

// Self-loops.

/// How many of the first `k` loops are at node `v`.
pub open spec fn loops_at(loops: Seq<(usize, usize)>, v: usize, k: int) -> nat
    decreases k,
{
    if k <= 0 {
        0
    } else {
        loops_at(loops, v, k - 1) + if loops[k - 1].1 == v {
            1nat
        } else {
            0
        }
    }
}

proof fn lemma_loops_at(loops: Seq<(usize, usize)>, v: usize, k: int)
    ensures
        loops_at(loops, v, k) <= if k > 0 {
            k
        } else {
            0
        },
    decreases k,
{
    if k > 0 {
        lemma_loops_at(loops, v, k - 1);
    }
}

/// For each self-loop (an edge and its node), how many come before it at its node, and how
/// many there are at its node in all. Loops on one node nest in this order.
pub fn nest_loops(loops: &Vec<(usize, usize)>) -> (places: Vec<(usize, usize)>)
    ensures
        places@.len() == loops@.len(),
        forall|i: int|
            #![trigger places@[i]]
            0 <= i < places@.len() ==> places@[i].0 == loops_at(loops@, loops@[i].1, i)
                && places@[i].1 == loops_at(loops@, loops@[i].1, loops@.len() as int),
{
    let mut places: Vec<(usize, usize)> = Vec::new();
    for i in 0..loops.len()
        invariant
            places@.len() == i,
            forall|k: int|
                #![trigger places@[k]]
                0 <= k < i ==> places@[k].0 == loops_at(loops@, loops@[k].1, k) && places@[k].1
                    == loops_at(loops@, loops@[k].1, loops@.len() as int),
    {
        let v: usize = loops[i].1;
        let mut before: usize = 0;
        let mut total: usize = 0;
        for k in 0..loops.len()
            invariant
                i < loops@.len(),
                v == loops@[i as int].1,
                total == loops_at(loops@, v, k as int),
                before == loops_at(loops@, v, if k < i {
                    k as int
                } else {
                    i as int
                }),
        {
            proof {
                lemma_loops_at(loops@, v, k as int);
                lemma_loops_at(loops@, v, k + 1);
                lemma_loops_at(loops@, v, i as int);
            }
            if loops[k].1 == v {
                total = total + 1;
                if k < i {
                    before = before + 1;
                }
            }
        }
        places.push((before, total));
    }
    places
}

/// Loops of one node have places of their own, in their order, below the number of its loops.
pub proof fn law_loops_of_a_node_have_their_own_places(loops: Seq<(usize, usize)>, i: int, j: int)
    requires
        0 <= i < j < loops.len(),
        loops[i].1 == loops[j].1,
    ensures
        loops_at(loops, loops[i].1, i) < loops_at(loops, loops[j].1, j),
        loops_at(loops, loops[j].1, j) < loops_at(loops, loops[j].1, loops.len() as int),
{
    let v = loops[i].1;
    lemma_more_loops(loops, v, i + 1, j);
    lemma_more_loops(loops, v, j + 1, loops.len() as int);
}

proof fn lemma_more_loops(loops: Seq<(usize, usize)>, v: usize, i: int, j: int)
    requires
        0 <= i <= j,
    ensures
        loops_at(loops, v, i) <= loops_at(loops, v, j),
    decreases j,
{
    if i < j {
        lemma_more_loops(loops, v, i, j - 1);
    }
}

/// Only the loops of a node itself are counted at it: so many of the first loops name it.
pub proof fn law_loops_are_counted_at_their_node(loops: Seq<(usize, usize)>, v: usize, k: int)
    requires
        0 <= k <= loops.len(),
    ensures
        loops_at(loops, v, k) == loops.take(k).map_values(
            |l: (usize, usize)| l.1,
        ).to_multiset().count(v),
    decreases k,
{
    broadcast use vstd::seq_lib::group_to_multiset_ensures;

    let nodes = loops.take(k).map_values(|l: (usize, usize)| l.1);
    if k > 0 {
        law_loops_are_counted_at_their_node(loops, v, k - 1);
        let fewer = loops.take(k - 1).map_values(|l: (usize, usize)| l.1);
        assert(nodes =~= fewer.push(loops[k - 1].1));
    } else {
        assert(!nodes.contains(v));
    }
}

} // verus!
