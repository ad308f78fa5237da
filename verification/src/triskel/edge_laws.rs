//! What becomes of the edges of a layout: long edges in short pieces, and back-edges in
//! gadgets.
use crate::graph::owning::EdgeEntry;
use crate::triskel::chains::{pieces_of, way_of};
use crate::triskel::cycle::{with_gadget, with_gadgets};
use crate::triskel::layout_graph::{EdgeLayoutData, LayoutState};
use crate::triskel::rank::{demanded, rank_edges, ranks_of, RankEdge};
use crate::triskel::segment::{layer_in, with_short_edge, with_short_edges, Segmented};
use crate::triskel::simplex::cost;
use crate::triskel::way_laws::{is_step, law_gadget_is_the_whole_way};
use vstd::prelude::*;

verus! {

/// The edge `id` leads from `from` to `to` and belongs to the same original edge as `data`.
pub open spec fn is_piece(
    state: LayoutState,
    id: usize,
    from: usize,
    to: usize,
    data: EdgeLayoutData,
) -> bool {
    &&& state.edges.contains_key(id)
    &&& state.edges[id].from == from
    &&& state.edges[id].to == to
    &&& state.edges[id].data.orig == data.orig
    &&& state.edges[id].data.reversed == data.reversed
}

/// The node is a dummy at a layer that was not there before.
pub open spec fn is_new_dummy(before: LayoutState, after: LayoutState, n: usize, layer: int) -> bool {
    &&& before.next_node <= n
    &&& after.nodes.contains_key(n)
    &&& after.nodes[n].data.is_dummy
    &&& layer_in(after, n) == layer
}

/// The edge goes over one dummy in the layer between its ends.
pub open spec fn goes_over(
    before: LayoutState,
    after: Segmented,
    edge: EdgeEntry<usize, EdgeLayoutData>,
    way: (usize, usize, usize),
) -> bool {
    let (m, a, b) = way;
    &&& before.next_edge <= a && before.next_edge <= b
    &&& is_new_dummy(before, after.state, m, layer_in(before, edge.from) + 1)
    &&& is_piece(after.state, a, edge.from, m, edge.data)
    &&& is_piece(after.state, b, m, edge.to, edge.data)
}

/// The edge goes over a p-vertex below its start and a q-vertex above its end, with a segment
/// between them, which is the edge itself.
pub open spec fn goes_along(
    before: LayoutState,
    after: Segmented,
    e: usize,
    edge: EdgeEntry<usize, EdgeLayoutData>,
    way: (usize, usize, usize, usize),
) -> bool {
    let (p, q, a, b) = way;
    &&& before.next_edge <= a && before.next_edge <= b
    &&& p != q
    &&& is_new_dummy(before, after.state, p, layer_in(before, edge.from) + 1)
    &&& is_new_dummy(before, after.state, q, layer_in(before, edge.to) - 1)
    &&& after.pvertices.contains(p)
    &&& after.qvertices.contains(q)
    &&& is_piece(after.state, a, edge.from, p, edge.data)
    &&& is_piece(after.state, e, p, q, edge.data)
    &&& is_piece(after.state, b, q, edge.to, edge.data)
}

/// What has become of an edge: a short one is what it was; a long one still leads from its
/// start to its end.
pub open spec fn is_kept(before: LayoutState, after: Segmented, e: usize) -> bool {
    let edge = before.edges[e];
    let span = layer_in(before, edge.to) - layer_in(before, edge.from);
    if span <= 1 {
        after.state.edges.contains_key(e) && after.state.edges[e] == edge
    } else if span == 2 {
        &&& !after.state.edges.contains_key(e)
        &&& exists|way: (usize, usize, usize)| #[trigger] goes_over(before, after, edge, way)
    } else {
        exists|way: (usize, usize, usize, usize)| #[trigger]
            goes_along(before, after, e, edge, way)
    }
}

/// Identifiers have been handed out, and edges join nodes.
pub open spec fn is_orderly(state: LayoutState) -> bool {
    &&& forall|n: usize| #[trigger] state.nodes.contains_key(n) ==> n < state.next_node
    &&& forall|e: usize| #[trigger]
        state.edges.contains_key(e) ==> e < state.next_edge && state.nodes.contains_key(
            state.edges[e].from,
        ) && state.nodes.contains_key(state.edges[e].to)
}

/// Nodes are what they were, but for their lists of edges.
pub open spec fn keeps_nodes(before: LayoutState, after: LayoutState) -> bool {
    &&& before.next_node <= after.next_node
    &&& before.next_edge <= after.next_edge
    &&& forall|n: usize| #[trigger]
        before.nodes.contains_key(n) ==> after.nodes.contains_key(n) && after.nodes[n].data
            == before.nodes[n].data
}

proof fn lemma_short_edge(s: Segmented, id: usize)
    requires
        is_orderly(s.state),
        s.state.edges.contains_key(id),
        s.state.next_node + 2 <= usize::MAX,
        s.state.next_edge + 2 <= usize::MAX,
    ensures
        ({
            let after = with_short_edge(s, id);
            &&& is_orderly(after.state)
            &&& keeps_nodes(s.state, after.state)
            &&& after.state.next_node <= s.state.next_node + 2
            &&& after.state.next_edge <= s.state.next_edge + 2
            &&& s.pvertices.subset_of(after.pvertices)
            &&& s.qvertices.subset_of(after.qvertices)
            &&& forall|e: usize| #[trigger]
                s.state.edges.contains_key(e) && e != id ==> after.state.edges.contains_key(e)
                    && after.state.edges[e] == s.state.edges[e]
            &&& forall|e: usize| #[trigger]
                after.state.edges.contains_key(e) && !s.state.edges.contains_key(e)
                    ==> s.state.next_edge <= e
            &&& is_kept(s.state, after, id)
        }),
{
    let after = with_short_edge(s, id);
    let edge = s.state.edges[id];
    let (r0, r1) = (layer_in(s.state, edge.from), layer_in(s.state, edge.to));
    let first = s.state.next_node as usize;
    let second = (s.state.next_node + 1) as usize;
    let x0 = s.state.next_edge as usize;
    let x1 = (s.state.next_edge + 1) as usize;
    assert(s.state.nodes.contains_key(edge.from) && s.state.nodes.contains_key(edge.to));
    assert(!s.state.nodes.contains_key(first) && !s.state.nodes.contains_key(second));
    assert(!s.state.edges.contains_key(x0) && !s.state.edges.contains_key(x1));
    if r1 <= r0 + 1 {
    } else if r1 == r0 + 2 {
        assert(after.state.edges.contains_key(x0) && after.state.edges.contains_key(x1));
        assert(after.state.nodes[first].data.rank == r0 + 1);
        assert(goes_over(s.state, after, edge, (first, x0, x1)));
    } else {
        assert(after.state.edges.contains_key(x0) && after.state.edges.contains_key(x1));
        assert(after.state.nodes[first].data.rank == r0 + 1);
        assert(after.state.nodes[second].data.rank == r1 - 1);
        assert(goes_along(s.state, after, id, edge, (first, second, x0, x1)));
    }
}

/// Later pieces leave those of an edge alone.
proof fn lemma_kept_on(before: LayoutState, s: Segmented, id: usize, e: usize)
    requires
        is_orderly(before),
        before.edges.contains_key(e),
        before.edges.contains_key(id),
        e != id,
        keeps_nodes(before, s.state),
        is_kept(before, s, e),
        is_orderly(s.state),
        s.state.edges.contains_key(id),
        s.state.next_node + 2 <= usize::MAX,
        s.state.next_edge + 2 <= usize::MAX,
    ensures
        is_kept(before, with_short_edge(s, id), e),
{
    lemma_short_edge(s, id);
    let after = with_short_edge(s, id);
    let edge = before.edges[e];
    let span = layer_in(before, edge.to) - layer_in(before, edge.from);
    if span <= 1 {
    } else if span == 2 {
        let way = choose|way: (usize, usize, usize)| #[trigger] goes_over(before, s, edge, way);
        assert(s.state.nodes.contains_key(way.0));
        assert(s.state.edges.contains_key(way.1) && s.state.edges.contains_key(way.2));
        assert(goes_over(before, after, edge, way));
        assert(!after.state.edges.contains_key(e));
    } else {
        let way = choose|way: (usize, usize, usize, usize)| #[trigger]
            goes_along(before, s, e, edge, way);
        assert(s.state.nodes.contains_key(way.0) && s.state.nodes.contains_key(way.1));
        assert(s.state.edges.contains_key(way.2) && s.state.edges.contains_key(way.3));
        assert(s.state.edges.contains_key(e));
        assert(goes_along(before, after, e, edge, way));
    }
}

/// What holds of an edge that is put in pieces now holds as seen from the start.
proof fn lemma_kept_since(before: LayoutState, s: Segmented, after: Segmented, e: usize)
    requires
        is_orderly(before),
        before.edges.contains_key(e),
        keeps_nodes(before, s.state),
        s.state.edges.contains_key(e),
        s.state.edges[e] == before.edges[e],
        is_kept(s.state, after, e),
    ensures
        is_kept(before, after, e),
{
    let edge = before.edges[e];
    assert(before.nodes.contains_key(edge.from) && before.nodes.contains_key(edge.to));
    let span = layer_in(before, edge.to) - layer_in(before, edge.from);
    if span == 2 {
        let way = choose|way: (usize, usize, usize)| #[trigger]
            goes_over(s.state, after, edge, way);
        assert(goes_over(before, after, edge, way));
    } else if span > 2 {
        let way = choose|way: (usize, usize, usize, usize)| #[trigger]
            goes_along(s.state, after, e, edge, way);
        assert(goes_along(before, after, e, edge, way));
    }
}

/// Splitting long edges keeps the nodes of a layout, and every edge: a short one stays as it
/// is, and a long one still leads from its start to its end, over dummies in the layers next
/// to them.
pub proof fn law_long_edges_keep_their_ends(before: Segmented, list: Seq<usize>)
    requires
        is_orderly(before.state),
        list.no_duplicates(),
        forall|i: int| 0 <= i < list.len() ==> before.state.edges.contains_key(#[trigger] list[i]),
        before.state.next_node + 2 * list.len() <= usize::MAX,
        before.state.next_edge + 2 * list.len() <= usize::MAX,
    ensures
        ({
            let after = with_short_edges(before, list);
            &&& is_orderly(after.state)
            &&& keeps_nodes(before.state, after.state)
            &&& forall|e: usize| #[trigger]
                before.state.edges.contains_key(e) ==> if list.contains(e) {
                    is_kept(before.state, after, e)
                } else {
                    after.state.edges.contains_key(e) && after.state.edges[e]
                        == before.state.edges[e]
                }
            &&& after.state.next_node <= before.state.next_node + 2 * list.len()
            &&& after.state.next_edge <= before.state.next_edge + 2 * list.len()
        }),
    decreases list.len(),
{
    if list.len() > 0 {
        let front = list.drop_last();
        let id = list.last();
        assert(list[list.len() - 1] == id);
        assert forall|i: int| 0 <= i < front.len() implies before.state.edges.contains_key(
            #[trigger] front[i],
        ) by {
            assert(list[i] == front[i]);
        }
        law_long_edges_keep_their_ends(before, front);
        let s = with_short_edges(before, front);
        let after = with_short_edges(before, list);
        assert(!front.contains(id));
        lemma_short_edge(s, id);
        assert forall|e: usize| #[trigger] before.state.edges.contains_key(e) implies if list.contains(
            e,
        ) {
            is_kept(before.state, after, e)
        } else {
            after.state.edges.contains_key(e) && after.state.edges[e] == before.state.edges[e]
        } by {
            if e == id {
                assert(list.contains(e));
                lemma_kept_since(before.state, s, after, e);
            } else {
                assert(list.contains(e) == front.contains(e)) by {
                    if list.contains(e) {
                        let i = list.index_of(e);
                        assert(front[i] == e);
                    }
                    if front.contains(e) {
                        let i = front.index_of(e);
                        assert(list[i] == e);
                    }
                }
                if front.contains(e) {
                    lemma_kept_on(before.state, s, id, e);
                }
            }
        }
    }
}

// Back-edges.

/// The edge `id` has become a gadget: over its three edges, all of them marked as reversed, a
/// way leads from its start to a dummy, up to another dummy, and to its end.
pub open spec fn is_gadget_of(
    before: LayoutState,
    after: LayoutState,
    id: usize,
    gadget: Seq<usize>,
) -> bool {
    let edge = before.edges[id];
    let pieces = pieces_of(after, gadget);
    &&& gadget.no_duplicates()
    &&& forall|i: int|
        0 <= i < gadget.len() ==> before.next_edge <= #[trigger] gadget[i]
            && after.edges.contains_key(gadget[i]) && after.edges[gadget[i]].data.reversed
            && after.edges[gadget[i]].data.orig == edge.data.orig
    &&& way_of(pieces) is Some
    &&& way_of(pieces)->Some_0.nodes.len() == 4
    &&& way_of(pieces)->Some_0.nodes[0] == edge.from
    &&& way_of(pieces)->Some_0.nodes[3] == edge.to
}

/// A back-edge becomes a gadget whose way is that of the edge, and nothing else changes: the
/// way leads from the start of the edge to its end, while no edge of the gadget leads from
/// one of its dummies back to the start or from the end to one of them.
pub proof fn law_gadget_leads_from_start_to_end(state: LayoutState, id: usize)
    requires
        is_orderly(state),
        state.edges.contains_key(id),
        state.edges[id].from != state.edges[id].to,
        !state.nodes[state.edges[id].from].data.is_dummy,
        !state.nodes[state.edges[id].to].data.is_dummy,
        state.next_node + 2 <= usize::MAX,
        state.next_edge + 3 <= usize::MAX,
    ensures
        ({
            let after = with_gadget(state, id);
            let gadget = seq![
                state.next_edge as usize,
                (state.next_edge + 1) as usize,
                (state.next_edge + 2) as usize,
            ];
            &&& is_gadget_of(state, after, id, gadget)
            &&& !after.edges.contains_key(id)
            &&& keeps_nodes(state, after)
            &&& forall|e: usize| #[trigger]
                state.edges.contains_key(e) && e != id ==> after.edges.contains_key(e)
                    && after.edges[e] == state.edges[e]
            &&& forall|e: usize| #[trigger]
                after.edges.contains_key(e) && !state.edges.contains_key(e) ==> gadget.contains(e)
                    && after.edges[e].to != state.edges[id].from && after.edges[e].from
                    != state.edges[id].to
        }),
{
    let edge = state.edges[id];
    let after = with_gadget(state, id);
    let above = state.next_node as usize;
    let below = (state.next_node + 1) as usize;
    let x0 = state.next_edge as usize;
    let x1 = (state.next_edge + 1) as usize;
    let x2 = (state.next_edge + 2) as usize;
    let gadget = seq![x0, x1, x2];
    assert(state.nodes.contains_key(edge.from) && state.nodes.contains_key(edge.to));
    assert(!state.nodes.contains_key(above) && !state.nodes.contains_key(below));
    assert(!state.edges.contains_key(x0) && !state.edges.contains_key(x1)
        && !state.edges.contains_key(x2));
    assert(after.edges[x0].from == above && after.edges[x0].to == edge.to);
    assert(after.edges[x1].from == edge.from && after.edges[x1].to == below);
    assert(after.edges[x2].from == above && after.edges[x2].to == below);
    assert(after.nodes[above].data.is_dummy && after.nodes[below].data.is_dummy);
    assert(after.nodes[edge.from].data == state.nodes[edge.from].data);
    assert(after.nodes[edge.to].data == state.nodes[edge.to].data);
    let pieces = pieces_of(after, gadget);
    let column = seq![above, below];
    assert(pieces[0].reversed);
    assert(pieces[2].from == column[0] && pieces[2].to == column[1]);
    assert forall|i: int| #![trigger column[i]] 0 <= i < column.len() - 1 implies exists|j: int|
        #![trigger pieces[j]]
        0 <= j < pieces.len() && pieces[j].from_dummy && pieces[j].to_dummy && pieces[j].from
            == column[i] && pieces[j].to == column[i + 1] by {
        assert(pieces[2].from_dummy);
    }
    assert forall|j: int| #![trigger pieces[j]] 0 <= j < pieces.len() implies match (
        pieces[j].from_dummy,
        pieces[j].to_dummy,
    ) {
        (false, false) => false,
        (false, true) => pieces[j].from == edge.from && pieces[j].to == column.last(),
        (true, false) => pieces[j].from == column[0] && pieces[j].to == edge.to,
        (true, true) => is_step(column, pieces[j]),
    } by {
        if j == 2 {
            assert(pieces[j].from == column[0] && pieces[j].to == column[1]);
        }
    }
    law_gadget_is_the_whole_way(pieces, edge.from, column, edge.to, 1, 0);
    assert forall|e: usize| #[trigger]
        after.edges.contains_key(e) && !state.edges.contains_key(e) implies gadget.contains(e)
        && after.edges[e].to != edge.from && after.edges[e].from != edge.to by {
        assert(e == x0 || e == x1 || e == x2);
        assert(gadget[0] == x0 && gadget[1] == x1 && gadget[2] == x2);
    }
}

/// Gadgets replace the edges that they stand for, each once, and leave the other edges and
/// the nodes as they are.
pub proof fn law_gadgets_replace_back_edges_alone(state: LayoutState, back: Seq<usize>)
    requires
        is_orderly(state),
        back.no_duplicates(),
        forall|i: int| 0 <= i < back.len() ==> state.edges.contains_key(#[trigger] back[i]),
        state.next_node + 2 * back.len() <= usize::MAX,
        state.next_edge + 3 * back.len() <= usize::MAX,
    ensures
        ({
            let after = with_gadgets(state, back);
            &&& is_orderly(after)
            &&& keeps_nodes(state, after)
            &&& after.next_node == state.next_node + 2 * back.len()
            &&& after.next_edge == state.next_edge + 3 * back.len()
            &&& forall|e: usize| #[trigger]
                state.edges.contains_key(e) ==> if back.contains(e) {
                    !after.edges.contains_key(e)
                } else {
                    after.edges.contains_key(e) && after.edges[e] == state.edges[e]
                }
            &&& forall|e: usize| #[trigger]
                after.edges.contains_key(e) && !state.edges.contains_key(e) ==> state.next_edge <= e
                    && after.edges[e].data.reversed
        }),
    decreases back.len(),
{
    if back.len() > 0 {
        let front = back.drop_last();
        let id = back.last();
        assert(back[back.len() - 1] == id);
        assert forall|i: int| 0 <= i < front.len() implies state.edges.contains_key(
            #[trigger] front[i],
        ) by {
            assert(back[i] == front[i]);
        }
        law_gadgets_replace_back_edges_alone(state, front);
        let mid = with_gadgets(state, front);
        let after = with_gadgets(state, back);
        assert(!front.contains(id));
        assert(mid.edges.contains_key(id));
        let edge = mid.edges[id];
        assert(mid.nodes.contains_key(edge.from) && mid.nodes.contains_key(edge.to));
        let above = mid.next_node as usize;
        let below = (mid.next_node + 1) as usize;
        let x0 = mid.next_edge as usize;
        let x1 = (mid.next_edge + 1) as usize;
        let x2 = (mid.next_edge + 2) as usize;
        assert(!mid.nodes.contains_key(above) && !mid.nodes.contains_key(below));
        assert(!mid.edges.contains_key(x0) && !mid.edges.contains_key(x1)
            && !mid.edges.contains_key(x2));
        assert forall|e: usize| #[trigger] state.edges.contains_key(e) implies if back.contains(e) {
            !after.edges.contains_key(e)
        } else {
            after.edges.contains_key(e) && after.edges[e] == state.edges[e]
        } by {
            assert(back.contains(e) <==> front.contains(e) || e == id) by {
                if back.contains(e) && e != id {
                    assert(front[back.index_of(e)] == e);
                }
                if front.contains(e) {
                    assert(back[front.index_of(e)] == e);
                }
            }
        }
        assert forall|e: usize| #[trigger]
            after.edges.contains_key(e) && !state.edges.contains_key(e) implies state.next_edge <= e
            && after.edges[e].data.reversed by {
            if e != x0 && e != x1 && e != x2 {
                assert(mid.edges.contains_key(e));
            }
        }
        assert(keeps_nodes(mid, after));
        assert forall|n: usize| #[trigger] state.nodes.contains_key(n) implies after.nodes.contains_key(
            n,
        ) && after.nodes[n].data == state.nodes[n].data by {
            assert(mid.nodes.contains_key(n));
        }
    }
}

// Relatives.

/// The children of a node are the targets of the edges of the list that leave it, and its
/// parents the sources of those that enter it, in the order of the list.
pub proof fn law_relatives_are_other_ends(state: LayoutState, node: usize, list: Seq<usize>, out: bool) -> (
    places: Seq<int>)
    ensures
        ({
            let found = if out {
                state.ahead(node, list)
            } else {
                state.back(node, list)
            };
            &&& places.len() == found.len()
            &&& forall|i: int, j: int|
                0 <= i < j < places.len() ==> #[trigger] places[i] < #[trigger] places[j]
            &&& forall|i: int|
                0 <= i < places.len() ==> 0 <= #[trigger] places[i] < list.len() && is_other_end(
                    state,
                    node,
                    list[places[i]],
                    out,
                    found[i],
                )
            &&& forall|k: int|
                #![trigger list[k]]
                0 <= k < list.len() && (if out {
                    state.edges[list[k]].from == node
                } else {
                    state.edges[list[k]].to == node
                }) ==> places.contains(k)
        }),
    decreases list.len(),
{
    if list.len() == 0 {
        Seq::empty()
    } else {
        let front = list.drop_last();
        let before = law_relatives_are_other_ends(state, node, front, out);
        let last = list.len() - 1;
        let edge = state.edges[list.last()];
        let counts = if out {
            edge.from == node
        } else {
            edge.to == node
        };
        let places = if counts {
            before.push(last)
        } else {
            before
        };
        let found = if out {
            state.ahead(node, list)
        } else {
            state.back(node, list)
        };
        let rest = if out {
            state.ahead(node, front)
        } else {
            state.back(node, front)
        };
        assert forall|i: int| 0 <= i < places.len() implies 0 <= #[trigger] places[i] < list.len()
            && is_other_end(state, node, list[places[i]], out, found[i]) by {
            if i < before.len() {
                assert(places[i] == before[i]);
                assert(found[i] == rest[i]);
                assert(front[before[i]] == list[before[i]]);
            }
        }
        assert forall|i: int, j: int| 0 <= i < j < places.len() implies #[trigger] places[i]
            < #[trigger] places[j] by {
            assert(places[i] == before[i]);
            if j < before.len() {
                assert(places[j] == before[j]);
            }
        }
        assert forall|k: int|
            #![trigger list[k]]
            0 <= k < list.len() && (if out {
                state.edges[list[k]].from == node
            } else {
                state.edges[list[k]].to == node
            }) implies places.contains(k) by {
            if k < last {
                assert(front[k] == list[k]);
                assert(places[before.index_of(k)] == k);
            } else {
                assert(places[before.len() as int] == k);
            }
        }
        places
    }
}

/// The edge leads from the node to `other`, or from there to the node.
pub open spec fn is_other_end(state: LayoutState, node: usize, e: usize, out: bool, other: usize) -> bool {
    if out {
        state.edges[e].from == node && state.edges[e].to == other
    } else {
        state.edges[e].to == node && state.edges[e].from == other
    }
}

// Ranks.

/// What the ranks of a layout cost: for each edge of the list that is no loop, its weight (at
/// least one) for each rank that it spans beyond what it demands.
pub open spec fn layout_cost(state: LayoutState, list: Seq<usize>, k: int) -> int
    decreases k,
{
    if k <= 0 {
        0
    } else {
        let edge = state.edges[list[k - 1]];
        let span = state.nodes[edge.to].data.rank - state.nodes[edge.from].data.rank;
        let weight = if edge.data.weight > 1 {
            edge.data.weight as int
        } else {
            1
        };
        layout_cost(state, list, k - 1) + if edge.from == edge.to {
            0
        } else {
            weight * (span - demanded(edge.data))
        }
    }
}

/// The cost of the ranks of a layout is that of the ranking that the network simplex works
/// on, so that the cheapest ranking makes the cheapest layout.
pub proof fn law_ranks_cost_what_edges_span(state: LayoutState, ids: Seq<usize>, list: Seq<usize>)
    requires
        ids.no_duplicates(),
        ids.len() <= usize::MAX,
        forall|k: int|
            #![trigger list[k]]
            0 <= k < list.len() ==> ids.contains(state.edges[list[k]].from) && ids.contains(
                state.edges[list[k]].to,
            ),
    ensures
        cost(
            rank_edges(state, ids, list),
            ranks_of(state, ids),
            rank_edges(state, ids, list).len(),
        ) == layout_cost(state, list, list.len() as int),
    decreases list.len(),
{
    if list.len() > 0 {
        let front = list.drop_last();
        assert forall|k: int|
            #![trigger front[k]]
            0 <= k < front.len() implies ids.contains(state.edges[front[k]].from) && ids.contains(
            state.edges[front[k]].to,
        ) by {
            assert(list[k] == front[k]);
        }
        law_ranks_cost_what_edges_span(state, ids, front);
        lemma_layout_cost(state, list, front, front.len() as int);
        let rest = rank_edges(state, ids, front);
        let all = rank_edges(state, ids, list);
        let rank = ranks_of(state, ids);
        let edge = state.edges[list.last()];
        assert(list[list.len() - 1] == list.last());
        if edge.from != edge.to {
            lemma_cost(all, rest, rank, rest.len());
            assert(ids[ids.index_of(edge.from)] == edge.from);
            assert(ids[ids.index_of(edge.to)] == edge.to);
            let last = all[rest.len() as int];
            assert(rank[last.tail as int] == state.nodes[edge.from].data.rank);
            assert(rank[last.head as int] == state.nodes[edge.to].data.rank);
        }
    }
}

proof fn lemma_layout_cost(state: LayoutState, a: Seq<usize>, b: Seq<usize>, k: int)
    requires
        0 <= k <= a.len(),
        k <= b.len(),
        forall|i: int| 0 <= i < k ==> #[trigger] a[i] == b[i],
    ensures
        layout_cost(state, a, k) == layout_cost(state, b, k),
    decreases k,
{
    if k > 0 {
        lemma_layout_cost(state, a, b, k - 1);
        assert(a[k - 1] == b[k - 1]);
    }
}

proof fn lemma_cost(a: Seq<RankEdge>, b: Seq<RankEdge>, rank: Seq<i64>, k: nat)
    requires
        k <= a.len(),
        k <= b.len(),
        forall|i: int| 0 <= i < k ==> #[trigger] a[i] == b[i],
    ensures
        cost(a, rank, k) == cost(b, rank, k),
    decreases k,
{
    if k > 0 {
        lemma_cost(a, b, rank, (k - 1) as nat);
        assert(a[k - 1] == b[k - 1]);
    }
}

} // verus!
