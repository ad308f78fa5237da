//! What holds of the ways of edges.
use crate::sorting::{comes_before, is_sorted_order, lemma_sorted_order, Key};
use crate::triskel::chains::{
    attachment, chain_way, column_of, first_tail, gadget_way, has_reversed, is_tail, next_piece,
    is_port_order, port_keys, runs_of, walk_nodes, walk_pieces, way_of, Piece,
};
use crate::triskel::layout_graph::LayoutState;
use vstd::prelude::*;

verus! {

/// Some piece leads from `a` to `b`.
pub open spec fn leads(pieces: Seq<Piece>, a: usize, b: usize) -> bool {
    exists|j: int|
        #![trigger pieces[j]]
        0 <= j < pieces.len() && pieces[j].from == a && pieces[j].to == b
}

/// The piece of edge `e` leads from `a` to `b`.
pub open spec fn edge_leads(pieces: Seq<Piece>, e: usize, a: usize, b: usize) -> bool {
    exists|j: int|
        #![trigger pieces[j]]
        0 <= j < pieces.len() && pieces[j].edge == e && pieces[j].from == a && pieces[j].to == b
}

proof fn lemma_next_is_there(pieces: Seq<Piece>, v: usize, k: int)
    requires
        0 <= k <= pieces.len(),
    ensures
        match next_piece(pieces, v, k) {
            Some(i) => 0 <= i < k && pieces[i].from == v,
            None => forall|j: int|
                #![trigger pieces[j]]
                0 <= j < k ==> pieces[j].from != v,
        },
    decreases k,
{
    if k > 0 && pieces[k - 1].from != v {
        lemma_next_is_there(pieces, v, k - 1);
    }
}

/// A walk takes pieces, each from where the one before led to.
proof fn lemma_walk(pieces: Seq<Piece>, v: usize, fuel: nat)
    ensures
        ({
            let walk = walk_pieces(pieces, v, fuel);
            &&& forall|k: int|
                0 <= k < walk.len() ==> 0 <= #[trigger] walk[k] < pieces.len() && pieces[walk[k]].from
                    == walk_nodes(pieces, v, walk)[k] && pieces[walk[k]].to == walk_nodes(
                    pieces,
                    v,
                    walk,
                )[k + 1]
        }),
    decreases fuel,
{
    lemma_next_is_there(pieces, v, pieces.len() as int);
    let walk = walk_pieces(pieces, v, fuel);
    match next_piece(pieces, v, pieces.len() as int) {
        Some(i) => {
            if fuel > 0 {
                let w = pieces[i].to;
                lemma_walk(pieces, w, (fuel - 1) as nat);
                let rest = walk_pieces(pieces, w, (fuel - 1) as nat);
                let nodes = walk_nodes(pieces, v, walk);
                let later = walk_nodes(pieces, w, rest);
                assert(walk =~= seq![i] + rest);
                assert(nodes =~= seq![v] + later) by {
                    assert(nodes.len() == later.len() + 1);
                    assert forall|k: int| 0 <= k < nodes.len() implies nodes[k] == (seq![v]
                        + later)[k] by {
                        if k == 1 {
                            assert(walk[0] == i);
                        } else if k > 1 {
                            assert(walk[k - 1] == rest[k - 2]);
                        }
                    }
                }
                assert forall|k: int| 0 <= k < walk.len() implies 0 <= #[trigger] walk[k]
                    < pieces.len() && pieces[walk[k]].from == nodes[k] && pieces[walk[k]].to
                    == nodes[k + 1] by {
                    if k > 0 {
                        assert(walk[k] == rest[k - 1]);
                    }
                }
            }
        },
        None => {},
    }
}

proof fn lemma_first_tail(pieces: Seq<Piece>, k: int)
    requires
        0 <= k <= pieces.len(),
    ensures
        match first_tail(pieces, k) {
            Some(t) => k <= t < pieces.len() && is_tail(pieces, t),
            None => forall|t: int|
                #![trigger pieces[t]]
                k <= t < pieces.len() ==> !is_tail(pieces, t),
        },
    decreases pieces.len() - k,
{
    if k < pieces.len() && !is_tail(pieces, k) {
        lemma_first_tail(pieces, k + 1);
    }
}

proof fn lemma_attachment(pieces: Seq<Piece>, from_dummy: bool, to_dummy: bool, k: int)
    requires
        0 <= k <= pieces.len(),
    ensures
        match attachment(pieces, from_dummy, to_dummy, k) {
            Some(i) => 0 <= i < k && pieces[i].from_dummy == from_dummy && pieces[i].to_dummy
                == to_dummy,
            None => forall|j: int|
                #![trigger pieces[j]]
                0 <= j < k ==> pieces[j].from_dummy != from_dummy || pieces[j].to_dummy
                    != to_dummy,
        },
    decreases k,
{
    if k > 0 && !(pieces[k - 1].from_dummy == from_dummy && pieces[k - 1].to_dummy == to_dummy) {
        lemma_attachment(pieces, from_dummy, to_dummy, k - 1);
    }
}

proof fn lemma_column(pieces: Seq<Piece>, k: int)
    requires
        0 <= k <= pieces.len(),
    ensures
        forall|j: int|
            #![trigger column_of(pieces, k)[j]]
            0 <= j < column_of(pieces, k).len() ==> pieces.contains(column_of(pieces, k)[j])
                && column_of(pieces, k)[j].from_dummy && column_of(pieces, k)[j].to_dummy,
        forall|i: int|
            #![trigger pieces[i]]
            0 <= i < k && pieces[i].from_dummy && pieces[i].to_dummy ==> column_of(
                pieces,
                k,
            ).contains(pieces[i]),
    decreases k,
{
    if k > 0 {
        lemma_column(pieces, k - 1);
        let before = column_of(pieces, k - 1);
        let column = column_of(pieces, k);
        let last = pieces[k - 1];
        assert forall|j: int| #![trigger column[j]] 0 <= j < column.len() implies pieces.contains(
            column[j],
        ) && column[j].from_dummy && column[j].to_dummy by {
            if j < before.len() {
                assert(column[j] == before[j]);
            }
        }
        assert forall|i: int|
            #![trigger pieces[i]]
            0 <= i < k && pieces[i].from_dummy && pieces[i].to_dummy implies column.contains(
            pieces[i],
        ) by {
            if i < k - 1 {
                let j = choose|j: int| 0 <= j < before.len() && before[j] == pieces[i];
                assert(column[j] == pieces[i]);
            } else {
                assert(column[before.len() as int] == last);
            }
        }
    }
}

/// The way of a forward edge goes along its pieces: each leads from one node of the way to
/// the next. The first and the last edge of the way are those of its first and last step.
pub proof fn law_chain_follows_its_pieces(pieces: Seq<Piece>)
    requires
        chain_way(pieces) is Some,
    ensures
        ({
            let way = chain_way(pieces)->Some_0;
            let n = way.nodes.len() as int;
            &&& n >= 2
            &&& forall|i: int|
                #![trigger way.nodes[i]]
                0 <= i < n - 1 ==> leads(pieces, way.nodes[i], way.nodes[i + 1])
            &&& edge_leads(pieces, way.first, way.nodes[0], way.nodes[1])
            &&& edge_leads(pieces, way.last, way.nodes[n - 2], way.nodes[n - 1])
        }),
{
    lemma_first_tail(pieces, 0);
    let t = first_tail(pieces, 0)->Some_0;
    let v = pieces[t].from;
    lemma_next_is_there(pieces, v, pieces.len() as int);
    assert(pieces[t].from == v);
    let walk = walk_pieces(pieces, v, pieces.len());
    lemma_walk(pieces, v, pieces.len());
    let way = chain_way(pieces)->Some_0;
    assert forall|i: int| #![trigger way.nodes[i]] 0 <= i < way.nodes.len() - 1 implies leads(
        pieces,
        way.nodes[i],
        way.nodes[i + 1],
    ) by {
        assert(0 <= walk[i] < pieces.len());
        assert(pieces[walk[i]].from == way.nodes[i]);
    }
    assert(pieces[walk[0]].edge == way.first);
    assert(0 <= walk[walk.len() - 1] < pieces.len());
    assert(pieces[walk[walk.len() - 1]].edge == way.last);
}

/// The way of a back-edge leaves its source over the first edge, goes up the column against
/// the pieces between its dummies, and enters its target over the last edge.
#[verifier::rlimit(60)]
pub proof fn law_gadget_climbs_its_column(pieces: Seq<Piece>)
    requires
        gadget_way(pieces) is Some,
    ensures
        ({
            let way = gadget_way(pieces)->Some_0;
            let n = way.nodes.len() as int;
            &&& n >= 3
            &&& edge_leads(pieces, way.first, way.nodes[0], way.nodes[1])
            &&& edge_leads(pieces, way.last, way.nodes[n - 2], way.nodes[n - 1])
            &&& forall|i: int|
                #![trigger way.nodes[i]]
                1 <= i < n - 2 ==> leads(pieces, way.nodes[i + 1], way.nodes[i])
        }),
{
    let n = pieces.len() as int;
    lemma_attachment(pieces, false, true, n);
    lemma_attachment(pieces, true, false, n);
    lemma_column(pieces, n);
    let s = attachment(pieces, false, true, n)->Some_0;
    let t = attachment(pieces, true, false, n)->Some_0;
    let column = column_of(pieces, n);
    let top = pieces[t].from;
    let walk = walk_pieces(column, top, column.len());
    let down = walk_nodes(column, top, walk);
    lemma_walk(column, top, column.len());
    let way = gadget_way(pieces)->Some_0;
    let m = way.nodes.len() as int;
    assert(m == down.len() + 2);
    assert(way.nodes[0] == pieces[s].from);
    assert(way.nodes[1] == down.last());
    assert(way.nodes[m - 1] == pieces[t].to);
    assert(way.nodes[m - 2] == down[0]);
    assert(pieces[s].edge == way.first && pieces[t].edge == way.last);
    assert forall|i: int| #![trigger way.nodes[i]] 1 <= i < m - 2 implies leads(
        pieces,
        way.nodes[i + 1],
        way.nodes[i],
    ) by {
        let k = m - 3 - i;
        assert(way.nodes[i] == down[k + 1]);
        assert(way.nodes[i + 1] == down[k]);
        assert(0 <= walk[k] < column.len());
        let piece = column[walk[k]];
        assert(pieces.contains(piece));
        let j = choose|j: int| 0 <= j < pieces.len() && pieces[j] == piece;
        assert(pieces[j].from == down[k]);
    }
}

/// Two neighbouring nodes of a way are the two ends of one of the pieces; the first pair are
/// the ends of the first edge, and the last pair those of the last.
pub proof fn law_way_goes_along_pieces(pieces: Seq<Piece>)
    requires
        way_of(pieces) is Some,
    ensures
        ({
            let way = way_of(pieces)->Some_0;
            let n = way.nodes.len() as int;
            &&& n >= 2
            &&& forall|i: int|
                #![trigger way.nodes[i]]
                0 <= i < n - 1 ==> leads(pieces, way.nodes[i], way.nodes[i + 1]) || leads(
                    pieces,
                    way.nodes[i + 1],
                    way.nodes[i],
                )
            &&& edge_leads(pieces, way.first, way.nodes[0], way.nodes[1])
            &&& edge_leads(pieces, way.last, way.nodes[n - 2], way.nodes[n - 1])
        }),
{
    if has_reversed(pieces) {
        law_gadget_climbs_its_column(pieces);
        let way = way_of(pieces)->Some_0;
        let n = way.nodes.len() as int;
        assert forall|i: int| #![trigger way.nodes[i]] 0 <= i < n - 1 implies leads(
            pieces,
            way.nodes[i],
            way.nodes[i + 1],
        ) || leads(pieces, way.nodes[i + 1], way.nodes[i]) by {
            if i == 0 {
                let j = choose|j: int|
                    #![trigger pieces[j]]
                    0 <= j < pieces.len() && pieces[j].edge == way.first && pieces[j].from
                        == way.nodes[0] && pieces[j].to == way.nodes[1];
                assert(pieces[j].from == way.nodes[0]);
            } else if i == n - 2 {
                let j = choose|j: int|
                    #![trigger pieces[j]]
                    0 <= j < pieces.len() && pieces[j].edge == way.last && pieces[j].from
                        == way.nodes[n - 2] && pieces[j].to == way.nodes[n - 1];
                assert(pieces[j].from == way.nodes[n - 2]);
            }
        }
    } else {
        law_chain_follows_its_pieces(pieces);
    }
}

// Whole ways.

/// Distinct nodes, each joined to the next by a piece.
pub open spec fn is_joined(pieces: Seq<Piece>, path: Seq<usize>) -> bool {
    &&& path.no_duplicates()
    &&& forall|i: int|
        #![trigger path[i]]
        0 <= i < path.len() - 1 ==> leads(pieces, path[i], path[i + 1])
}

/// The piece leads from one node of a path to the next.
pub open spec fn is_step(path: Seq<usize>, piece: Piece) -> bool {
    exists|i: int|
        #![trigger path[i]]
        0 <= i < path.len() - 1 && piece.from == path[i] && piece.to == path[i + 1]
}

/// The piece that leads away from the i-th node of a path.
spec fn step_at(pieces: Seq<Piece>, path: Seq<usize>, i: int) -> int {
    choose|j: int|
        #![trigger pieces[j]]
        0 <= j < pieces.len() && pieces[j].from == path[i] && pieces[j].to == path[i + 1]
}

/// A path has no more steps than there are pieces.
proof fn lemma_steps_fit(pieces: Seq<Piece>, path: Seq<usize>)
    requires
        is_joined(pieces, path),
        path.len() > 0,
    ensures
        path.len() - 1 <= pieces.len(),
{
    let n = (path.len() - 1) as nat;
    let steps = Seq::new(n, |i: int| step_at(pieces, path, i));
    assert forall|i: int| 0 <= i < n implies 0 <= #[trigger] steps[i] < pieces.len()
        && pieces[steps[i]].from == path[i] by {
        assert(leads(pieces, path[i], path[i + 1]));
    }
    assert(steps.no_duplicates()) by {
        assert forall|i: int, j: int| 0 <= i < n && 0 <= j < n && i != j implies steps[i]
            != steps[j] by {
            assert(pieces[steps[i]].from == path[i]);
            assert(pieces[steps[j]].from == path[j]);
        }
    }
    steps.unique_seq_to_set();
    let all = vstd::set_lib::set_int_range(0, pieces.len() as int);
    vstd::set_lib::lemma_int_range(0, pieces.len() as int);
    assert(steps.to_set().subset_of(all)) by {
        assert forall|j: int| steps.to_set().contains(j) implies all.contains(j) by {
            let i = choose|i: int| 0 <= i < steps.len() && steps[i] == j;
            assert(0 <= steps[i] < pieces.len());
        }
    }
    vstd::set_lib::lemma_len_subset(steps.to_set(), all);
}

/// A walk along the pieces of a path goes to its end.
proof fn lemma_walk_path(pieces: Seq<Piece>, path: Seq<usize>, i: int, fuel: nat)
    requires
        is_joined(pieces, path),
        forall|j: int| #![trigger pieces[j]] 0 <= j < pieces.len() ==> is_step(path, pieces[j]),
        0 <= i < path.len(),
        fuel >= path.len() - 1 - i,
    ensures
        walk_nodes(pieces, path[i], walk_pieces(pieces, path[i], fuel)) == path.skip(i),
    decreases path.len() - i,
{
    let v = path[i];
    let walk = walk_pieces(pieces, v, fuel);
    let nodes = walk_nodes(pieces, v, walk);
    lemma_next_is_there(pieces, v, pieces.len() as int);
    match next_piece(pieces, v, pieces.len() as int) {
        Some(k) => {
            assert(is_step(path, pieces[k]));
            let m = choose|m: int|
                #![trigger path[m]]
                0 <= m < path.len() - 1 && pieces[k].from == path[m] && pieces[k].to == path[m + 1];
            assert(m == i);
            lemma_walk_path(pieces, path, i + 1, (fuel - 1) as nat);
            let rest = walk_pieces(pieces, path[i + 1], (fuel - 1) as nat);
            let later = walk_nodes(pieces, path[i + 1], rest);
            assert(walk =~= seq![k] + rest);
            assert(nodes =~= seq![v] + later) by {
                assert forall|x: int| 0 <= x < nodes.len() implies nodes[x] == (seq![v]
                    + later)[x] by {
                    if x == 1 {
                        assert(walk[0] == k);
                    } else if x > 1 {
                        assert(walk[x - 1] == rest[x - 2]);
                    }
                }
            }
            assert(path.skip(i) =~= seq![v] + path.skip(i + 1));
        },
        None => {
            if i < path.len() - 1 {
                assert(leads(pieces, path[i], path[i + 1]));
                assert(false);
            }
            assert(nodes =~= seq![v]);
            assert(path.skip(i) =~= seq![v]);
        },
    }
}

/// The pieces of a forward edge that make up a path, in whatever order they are listed, give
/// that path, from its tail to its head.
pub proof fn law_chain_is_the_whole_path(pieces: Seq<Piece>, path: Seq<usize>)
    requires
        path.len() >= 2,
        is_joined(pieces, path),
        forall|j: int| #![trigger pieces[j]] 0 <= j < pieces.len() ==> is_step(path, pieces[j]),
        !has_reversed(pieces),
    ensures
        way_of(pieces) is Some,
        way_of(pieces)->Some_0.nodes == path,
{
    lemma_first_tail(pieces, 0);
    lemma_steps_fit(pieces, path);
    assert(leads(pieces, path[0], path[1]));
    let j = choose|j: int|
        #![trigger pieces[j]]
        0 <= j < pieces.len() && pieces[j].from == path[0] && pieces[j].to == path[1];
    assert(is_tail(pieces, j)) by {
        assert forall|k: int| #![trigger pieces[k]] 0 <= k < pieces.len() implies pieces[k].to
            != pieces[j].from by {
            assert(is_step(path, pieces[k]));
        }
    }
    assert(first_tail(pieces, 0) is Some) by {
        if first_tail(pieces, 0) is None {
            assert(!is_tail(pieces, j));
        }
    }
    let t = first_tail(pieces, 0)->Some_0;
    assert(is_step(path, pieces[t]));
    let m = choose|m: int|
        #![trigger path[m]]
        0 <= m < path.len() - 1 && pieces[t].from == path[m] && pieces[t].to == path[m + 1];
    if m > 0 {
        assert(leads(pieces, path[m - 1], path[m - 1 + 1]));
        assert(false);
    }
    lemma_walk_path(pieces, path, 0, pieces.len());
    assert(path.skip(0) =~= path);
}

/// The pieces of a back-edge that lead from `x` to the foot of a column, down the column, and
/// from its top to `y`, in whatever order they are listed, give the way from `x` up the column
/// to `y`.
pub proof fn law_gadget_is_the_whole_way(pieces: Seq<Piece>, x: usize, column: Seq<usize>, y: usize, s: int, t: int)
    requires
        has_reversed(pieces),
        column.len() > 0,
        column.no_duplicates(),
        0 <= s < pieces.len() && pieces[s].to_dummy && !pieces[s].from_dummy,
        0 <= t < pieces.len() && pieces[t].from_dummy && !pieces[t].to_dummy,
        forall|i: int|
            #![trigger column[i]]
            0 <= i < column.len() - 1 ==> exists|j: int|
                #![trigger pieces[j]]
                0 <= j < pieces.len() && pieces[j].from_dummy && pieces[j].to_dummy
                    && pieces[j].from == column[i] && pieces[j].to == column[i + 1],
        forall|j: int|
            #![trigger pieces[j]]
            0 <= j < pieces.len() ==> match (pieces[j].from_dummy, pieces[j].to_dummy) {
                (false, false) => false,
                (false, true) => pieces[j].from == x && pieces[j].to == column.last(),
                (true, false) => pieces[j].from == column[0] && pieces[j].to == y,
                (true, true) => is_step(column, pieces[j]),
            },
    ensures
        way_of(pieces) is Some,
        way_of(pieces)->Some_0.nodes == seq![x] + column.reverse() + seq![y],
{
    let n = pieces.len() as int;
    lemma_attachment(pieces, false, false, n);
    lemma_attachment(pieces, false, true, n);
    lemma_attachment(pieces, true, false, n);
    lemma_column(pieces, n);
    let all = column_of(pieces, n);
    assert(pieces[s].to_dummy && pieces[t].from_dummy);
    assert(attachment(pieces, false, false, n) is None);
    assert(is_joined(all, column)) by {
        assert forall|i: int| #![trigger column[i]] 0 <= i < column.len() - 1 implies leads(
            all,
            column[i],
            column[i + 1],
        ) by {
            let j = choose|j: int|
                #![trigger pieces[j]]
                0 <= j < pieces.len() && pieces[j].from_dummy && pieces[j].to_dummy
                    && pieces[j].from == column[i] && pieces[j].to == column[i + 1];
            assert(all.contains(pieces[j]));
            let k = choose|k: int| 0 <= k < all.len() && all[k] == pieces[j];
            assert(all[k].from == column[i]);
        }
    }
    assert forall|k: int| #![trigger all[k]] 0 <= k < all.len() implies is_step(column, all[k]) by {
        assert(pieces.contains(all[k]));
        let j = choose|j: int| 0 <= j < pieces.len() && pieces[j] == all[k];
        assert(pieces[j].from_dummy && pieces[j].to_dummy);
    }
    lemma_steps_fit(all, column);
    lemma_walk_path(all, column, 0, all.len());
    assert(column.skip(0) =~= column);
}

// Groups.

/// The pair is one of the first `k`.
pub open spec fn is_among(pairs: Seq<(usize, usize)>, k: int, pair: (usize, usize)) -> bool {
    exists|i: int| 0 <= i < k && #[trigger] pairs[i] == pair
}

/// The pair stands in the run of its first number.
pub open spec fn is_in_run(runs: Seq<(usize, Seq<usize>)>, a: int, pair: (usize, usize)) -> bool {
    0 <= a < runs.len() && runs[a].0 == pair.0 && runs[a].1.contains(pair.1)
}

pub open spec fn is_in_some_run(runs: Seq<(usize, Seq<usize>)>, pair: (usize, usize)) -> bool {
    exists|a: int| #[trigger] is_in_run(runs, a, pair)
}

/// One run for each first number, from the least to the greatest.
pub open spec fn are_runs(runs: Seq<(usize, Seq<usize>)>) -> bool {
    &&& forall|a: int, b: int|
        0 <= a < b < runs.len() ==> (#[trigger] runs[a]).0 < (#[trigger] runs[b]).0
    &&& forall|a: int| 0 <= a < runs.len() ==> (#[trigger] runs[a]).1.len() > 0
}

proof fn lemma_runs(pairs: Seq<(usize, usize)>, k: int)
    requires
        0 <= k <= pairs.len(),
        forall|i: int, j: int|
            0 <= i < j < pairs.len() ==> (#[trigger] pairs[i]).0 <= (#[trigger] pairs[j]).0,
    ensures
        are_runs(runs_of(pairs, k)),
        k > 0 ==> runs_of(pairs, k).len() > 0 && runs_of(pairs, k).last().0 == pairs[k - 1].0,
        k == 0 ==> runs_of(pairs, k).len() == 0,
    decreases k,
{
    if k > 0 {
        lemma_runs(pairs, k - 1);
        let before = runs_of(pairs, k - 1);
        let runs = runs_of(pairs, k);
        if k > 1 {
            assert(pairs[k - 2].0 <= pairs[k - 1].0);
        }
        assert forall|a: int| 0 <= a < runs.len() implies (#[trigger] runs[a]).1.len() > 0 by {
            if a < runs.len() - 1 {
                assert(runs[a] == before[a]);
            }
        }
        assert forall|a: int, b: int| 0 <= a < b < runs.len() implies (#[trigger] runs[a]).0 < (
        #[trigger] runs[b]).0 by {
            assert(runs[a] == before[a]);
            if b < runs.len() - 1 {
                assert(runs[b] == before[b]);
            }
        }
    }
}

/// What stands in a run is a pair.
proof fn lemma_runs_hold_pairs(pairs: Seq<(usize, usize)>, k: int, a: int, e: usize)
    requires
        0 <= k <= pairs.len(),
        0 <= a < runs_of(pairs, k).len(),
        runs_of(pairs, k)[a].1.contains(e),
    ensures
        is_among(pairs, k, (runs_of(pairs, k)[a].0, e)),
    decreases k,
{
    if k > 0 {
        let before = runs_of(pairs, k - 1);
        let runs = runs_of(pairs, k);
        let pair = (runs[a].0, e);
        if pair == pairs[k - 1] {
        } else {
            let j = runs[a].1.index_of(e);
            assert(a < before.len() && before[a].0 == runs[a].0 && before[a].1.contains(e)) by {
                if a < runs.len() - 1 {
                    assert(runs[a] == before[a]);
                } else {
                    assert(before.len() > 0);
                    assert(before.last().1[j] == e);
                }
            }
            lemma_runs_hold_pairs(pairs, k - 1, a, e);
            let i = choose|i: int| 0 <= i < k - 1 && #[trigger] pairs[i] == pair;
            assert(pairs[i] == pair);
        }
    }
}

/// Every pair stands in a run.
proof fn lemma_pairs_are_in_runs(pairs: Seq<(usize, usize)>, k: int, i: int) -> (a: int)
    requires
        0 <= i < k <= pairs.len(),
    ensures
        is_in_run(runs_of(pairs, k), a, pairs[i]),
    decreases k,
{
    let before = runs_of(pairs, k - 1);
    let runs = runs_of(pairs, k);
    if i == k - 1 {
        let a = runs.len() - 1;
        assert(runs[a].1.last() == pairs[i].1);
        a
    } else {
        let a = lemma_pairs_are_in_runs(pairs, k - 1, i);
        let j = before[a].1.index_of(pairs[i].1);
        assert(runs[a].0 == before[a].0);
        assert(runs[a].1[j] == pairs[i].1);
        a
    }
}

/// The runs of ascending pairs: one for each first number, from the least to the greatest,
/// with the second numbers of just its pairs.
pub proof fn law_runs_group_the_pairs(pairs: Seq<(usize, usize)>)
    requires
        forall|i: int, j: int|
            0 <= i < j < pairs.len() ==> (#[trigger] pairs[i]).0 <= (#[trigger] pairs[j]).0,
    ensures
        ({
            let runs = runs_of(pairs, pairs.len() as int);
            &&& are_runs(runs)
            &&& forall|a: int, e: usize|
                0 <= a < runs.len() ==> (#[trigger] runs[a].1.contains(e) <==> pairs.contains(
                    (runs[a].0, e),
                ))
            &&& forall|i: int|
                0 <= i < pairs.len() ==> is_in_some_run(runs, #[trigger] pairs[i])
        }),
{
    let n = pairs.len() as int;
    let runs = runs_of(pairs, n);
    lemma_runs(pairs, n);
    assert forall|a: int, e: usize| 0 <= a < runs.len() implies (#[trigger] runs[a].1.contains(e)
        <==> pairs.contains((runs[a].0, e))) by {
        if runs[a].1.contains(e) {
            lemma_runs_hold_pairs(pairs, n, a, e);
        }
        if pairs.contains((runs[a].0, e)) {
            let i = pairs.index_of((runs[a].0, e));
            let b = lemma_pairs_are_in_runs(pairs, n, i);
            assert(runs[b].0 == runs[a].0);
            assert(a == b) by {
                if a < b {
                    assert(runs[a].0 < runs[b].0);
                } else if b < a {
                    assert(runs[b].0 < runs[a].0);
                }
            }
        }
    }
    assert forall|i: int| 0 <= i < pairs.len() implies is_in_some_run(
        runs,
        #[trigger] pairs[i],
    ) by {
        let a = lemma_pairs_are_in_runs(pairs, n, i);
        assert(is_in_run(runs, a, pairs[i]));
    }
}

/// The ports of a node: exactly the edges of the list that leave it (or enter it), once for
/// each time that they are listed, by the orders of their other ends.
pub proof fn law_ports_are_the_edges_of_the_node(state: LayoutState, v: usize, list: Seq<usize>, out: bool, k: int)
    requires
        0 <= k <= list.len(),
    ensures
        ({
            let keys = port_keys(state, v, list, out, k);
            &&& keys.len() <= k
            &&& forall|i: int|
                #![trigger keys[i]]
                0 <= i < keys.len() ==> {
                    let e = state.edges[keys[i].2];
                    &&& list.contains(keys[i].2)
                    &&& out ==> e.from == v && keys[i].1 == e.to
                    &&& !out ==> e.to == v && keys[i].1 == e.from
                    &&& keys[i].0 == state.nodes[keys[i].1].data.order
                }
            &&& forall|j: int|
                #![trigger list[j]]
                0 <= j < k && (if out {
                    state.edges[list[j]].from == v
                } else {
                    state.edges[list[j]].to == v
                }) ==> exists|i: int|
                    #![trigger keys[i]]
                    0 <= i < keys.len() && keys[i].2 == list[j]
        }),
    decreases k,
{
    if k > 0 {
        law_ports_are_the_edges_of_the_node(state, v, list, out, k - 1);
        let before = port_keys(state, v, list, out, k - 1);
        let keys = port_keys(state, v, list, out, k);
        assert forall|i: int| #![trigger keys[i]] 0 <= i < keys.len() implies {
            let e = state.edges[keys[i].2];
            &&& list.contains(keys[i].2)
            &&& out ==> e.from == v && keys[i].1 == e.to
            &&& !out ==> e.to == v && keys[i].1 == e.from
            &&& keys[i].0 == state.nodes[keys[i].1].data.order
        } by {
            if i < before.len() {
                assert(keys[i] == before[i]);
            } else {
                assert(list[k - 1] == keys[i].2);
            }
        }
        assert forall|j: int|
            #![trigger list[j]]
            0 <= j < k && (if out {
                state.edges[list[j]].from == v
            } else {
                state.edges[list[j]].to == v
            }) implies exists|i: int|
            #![trigger keys[i]]
            0 <= i < keys.len() && keys[i].2 == list[j] by {
            if j < k - 1 {
                let i = choose|i: int|
                    #![trigger before[i]]
                    0 <= i < before.len() && before[i].2 == list[j];
                assert(keys[i] == before[i]);
            } else {
                assert(keys[before.len() as int].2 == list[j]);
            }
        }
    }
}

/// The ports of a node ascend by the orders of their other ends, then by their identifiers,
/// then by their own; each edge stands at one port.
pub proof fn law_ports_ascend(keys: Seq<Key>, ids: Seq<usize>)
    requires
        is_port_order(keys, ids),
        keys.len() <= usize::MAX,
    ensures
        ids.len() == keys.len(),
        exists|ranked: Seq<Key>| #[trigger] is_ranking(keys, ids, ranked),
{
    let order = choose|order: Seq<usize>| #[trigger]
        is_sorted_order(keys, order) && ids == order.map_values(|i: usize| keys[i as int].2);
    lemma_sorted_order(keys, order);
    let ranked = order.map_values(|i: usize| keys[i as int]);
    assert forall|i: int| 0 <= i < ids.len() implies keys.contains(#[trigger] ranked[i]) by {
        assert(order[i] < keys.len());
        assert(keys[order[i] as int] == ranked[i]);
    }
    assert forall|i: int| 0 <= i < keys.len() implies #[trigger] ranked.contains(keys[i]) by {
        assert(order.contains(i as usize));
        let k = order.index_of(i as usize);
        assert(ranked[k] == keys[i]);
    }
    assert forall|i: int, j: int| 0 <= i < j < ids.len() implies key_le(
        #[trigger] ranked[i],
        #[trigger] ranked[j],
    ) by {
        assert(comes_before(keys, order[i], order[j]));
    }
    assert(is_ranking(keys, ids, ranked));
}

/// The keys from the least to the greatest, with the edges that they belong to.
pub open spec fn is_ranking(keys: Seq<Key>, ids: Seq<usize>, ranked: Seq<Key>) -> bool {
    &&& ranked.len() == ids.len()
    &&& forall|i: int| 0 <= i < ids.len() ==> (#[trigger] ranked[i]).2 == ids[i]
    &&& forall|i: int| 0 <= i < ids.len() ==> keys.contains(#[trigger] ranked[i])
    &&& forall|i: int| 0 <= i < keys.len() ==> #[trigger] ranked.contains(keys[i])
    &&& forall|i: int, j: int|
        0 <= i < j < ids.len() ==> key_le(#[trigger] ranked[i], #[trigger] ranked[j])
}

/// Keys count from left to right.
pub open spec fn key_le(a: Key, b: Key) -> bool {
    a.0 < b.0 || a.0 == b.0 && (a.1 < b.1 || a.1 == b.1 && a.2 <= b.2)
}

} // verus!
