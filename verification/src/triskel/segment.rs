//! The representation of long edges.
//!
//! A long edge spanning ranks `r0..r1` is *not* split into one dummy per rank.
//! Instead it becomes at most two dummy vertices plus a single spanning edge:
//!
//! * span 2 (`r1 == r0+2`): one **r-vertex** at `r0+1`; the edge becomes
//!   `from -> r -> to`. (An ordinary dummy; there is no pass-through rank.)
//! * span 3 or more: a **p-vertex** at `r0+1` and a **q-vertex** at `r1-1`; the
//!   original edge is re-pointed to the spanning **segment** `p -> q`, with new
//!   edges `from -> p` and `q -> to`. Ranks strictly between `p` and `q` carry the
//!   segment only as a container element (no vertex).
//!
//! All edges of one original edge share its `orig` id and `reversed` flag so the
//! router can reassemble the polyline.
use crate::fx;
use crate::graph::edge::Edge;
use crate::graph::laws::{
    law_edit_edge_keeps_links, law_make_edge_keeps_links, law_make_node_keeps_links,
    law_remove_edge_keeps_links,
};
use crate::graph::owning::EdgeEntry;
use crate::graph::Graph;
use crate::triskel::layout_graph::{
    layer_of, plain_edge, spec_layer, state_of, EdgeLayoutData, LayoutGraph, LayoutState,
    NodeLayoutData,
};
use rustc_hash::FxHashSet;
use vstd::prelude::*;

verus! {

/// The p/q dummy classification needed by the container ordering pass.
pub struct SegmentInfo {
    pub pvertices: FxHashSet<usize>,
    pub qvertices: FxHashSet<usize>,
}

/// A layout with its p- and q-vertices.
pub struct Segmented {
    pub state: LayoutState,
    pub pvertices: Set<usize>,
    pub qvertices: Set<usize>,
}

/// A dummy node at a layer.
pub open spec fn dummy_at(layer: int) -> NodeLayoutData {
    NodeLayoutData { rank: layer as i64, order: 0, is_dummy: true, self_loops: 0 }
}

/// The layer of a node of a layout.
pub open spec fn layer_in(state: LayoutState, node: usize) -> int {
    spec_layer(state.nodes[node].data)
}

/// The layout with the edge `id` in short pieces, if it is long.
pub open spec fn with_short_edge(s: Segmented, id: usize) -> Segmented {
    let edge = s.state.edges[id];
    let (r0, r1) = (layer_in(s.state, edge.from), layer_in(s.state, edge.to));
    let data = plain_edge(edge.data.orig, edge.data.reversed);
    let first = s.state.next_node as usize;
    let second = (s.state.next_node + 1) as usize;
    if r1 <= r0 + 1 {
        s
    } else if r1 == r0 + 2 {
        Segmented {
            state: s.state.with_node(dummy_at(r0 + 1)).without_edge(id).with_edge(
                edge.from,
                first,
                data,
            ).with_edge(first, edge.to, data),
            ..s
        }
    } else {
        Segmented {
            state: s.state.with_node(dummy_at(r0 + 1)).with_node(dummy_at(r1 - 1)).with_ends(
                id,
                first,
                second,
            ).with_edge(edge.from, first, data).with_edge(second, edge.to, data),
            pvertices: s.pvertices.insert(first),
            qvertices: s.qvertices.insert(second),
        }
    }
}

/// The layout with all the edges of `list` in short pieces.
pub open spec fn with_short_edges(s: Segmented, list: Seq<usize>) -> Segmented
    decreases list.len(),
{
    if list.len() == 0 {
        s
    } else {
        with_short_edge(with_short_edges(s, list.drop_last()), list.last())
    }
}

/// Every edge spans one rank at most, or is a segment between a p- and a q-vertex.
pub open spec fn is_segmented(s: Segmented) -> bool {
    forall|e: usize| #[trigger] s.state.edges.contains_key(e) ==> is_short_or_segment(s, e)
}

pub open spec fn is_short_or_segment(s: Segmented, e: usize) -> bool {
    let edge = s.state.edges[e];
    ||| layer_in(s.state, edge.to) <= layer_in(s.state, edge.from) + 1
    ||| s.pvertices.contains(edge.from) && s.qvertices.contains(edge.to)
}

/// A p-vertex starts with the segment to its q-vertex, further down.
pub open spec fn leads_to_q(s: Segmented, p: usize) -> bool {
    let e = s.state.nodes[p].edges[0];
    let q = s.state.edges[e].to;
    &&& s.state.nodes.contains_key(p)
    &&& s.state.nodes[p].edges.len() > 0
    &&& s.state.edges.contains_key(e)
    &&& s.state.edges[e].from == p
    &&& s.qvertices.contains(q)
    &&& s.state.nodes[q].edges.len() > 0
    &&& s.state.nodes[q].edges[0] == e
    &&& layer_in(s.state, p) < layer_in(s.state, q)
}

/// A q-vertex starts with the segment from its p-vertex.
pub open spec fn comes_from_p(s: Segmented, q: usize) -> bool {
    let e = s.state.nodes[q].edges[0];
    let p = s.state.edges[e].from;
    &&& s.state.nodes.contains_key(q)
    &&& s.state.nodes[q].edges.len() > 0
    &&& s.state.edges.contains_key(e)
    &&& s.state.edges[e].to == q
    &&& s.pvertices.contains(p)
    &&& s.state.nodes[p].edges.len() > 0
    &&& s.state.nodes[p].edges[0] == e
}

/// Segments lead from p-vertices to q-vertices, one from each to each.
pub open spec fn is_paired(s: Segmented) -> bool {
    &&& forall|p: usize| #[trigger] s.pvertices.contains(p) ==> leads_to_q(s, p)
    &&& forall|q: usize| #[trigger] s.qvertices.contains(q) ==> comes_from_p(s, q)
}

/// Ranks are small enough for layers.
pub open spec fn ranks_bounded(state: LayoutState) -> bool {
    forall|n: usize| #[trigger]
        state.nodes.contains_key(n) ==> state.nodes[n].data.rank <= 0x2000_0000_0000_0000
            && state.nodes[n].data.rank < usize::MAX
}

/// Splits long edges into short pieces and segments.
#[verifier::rlimit(40)]
pub fn build_segments(graph: &mut LayoutGraph) -> (info: SegmentInfo)
    requires
        old(graph).wf(),
        state_of(old(graph)).is_sound(),
        ranks_bounded(state_of(old(graph))),
        old(graph).next_node() + 2 * old(graph).next_edge() + 2 <= usize::MAX,
        4 * old(graph).next_edge() <= usize::MAX,
    ensures
        final(graph).wf(),
        state_of(final(graph)).is_sound(),
        ranks_bounded(state_of(final(graph))),
        final(graph).next_node() <= old(graph).next_node() + 2 * old(graph).next_edge(),
        ({
            let before = Segmented {
                state: state_of(old(graph)),
                pvertices: Set::empty(),
                qvertices: Set::empty(),
            };
            let after = Segmented {
                state: state_of(final(graph)),
                pvertices: info.pvertices@,
                qvertices: info.qvertices@,
            };
            &&& after == with_short_edges(before, old(graph).spec_edges())
            &&& is_segmented(after)
            &&& is_paired(after)
        }),
{
    let mut pvertices: FxHashSet<usize> = fx::set_new();
    let mut qvertices: FxHashSet<usize> = fx::set_new();
    let ghost before = state_of(graph);
    let ghost start = Segmented { state: before, pvertices: Set::empty(), qvertices: Set::empty() };
    let list = graph.edge_ids();
    proof {
        graph.lemma_members();
        let ids = Seq::new(list@.len(), |i: int| list@[i] as int);
        assert forall|i: int| 0 <= i < ids.len() implies 0 <= #[trigger] ids[i] < before.next_edge by {
            assert(graph.spec_edges().contains(list@[i]));
            assert(before.edges.contains_key(list@[i]));
        }
        crate::counting::lemma_distinct_in_range(ids, 0, before.next_edge as int);
        assert forall|k: int| 0 <= k < list@.len() implies before.edges.contains_key(
            #[trigger] list@[k],
        ) by {
            assert(graph.spec_edges().contains(list@[k]));
        }
        assert(start == with_short_edges(start, list@.subrange(0, 0)));
        assert forall|e: usize| #[trigger] before.edges.contains_key(e) implies exists|k: int|
            0 <= k < list@.len() && #[trigger] list@[k] == e by {
            assert(graph.spec_edges().contains(e));
        }
    }
    for i in 0..list.len()
        invariant
            before.is_sound(),
            list@.no_duplicates(),
            list@.len() <= before.next_edge,
            before.next_node + 2 * before.next_edge + 2 <= usize::MAX,
            4 * before.next_edge <= usize::MAX,
            start == (Segmented {
                state: before,
                pvertices: Set::empty(),
                qvertices: Set::empty(),
            }),
            graph.wf(),
            (Segmented {
                state: state_of(graph),
                pvertices: pvertices@,
                qvertices: qvertices@,
            }) == with_short_edges(start, list@.subrange(0, i as int)),
            state_of(graph).is_sound(),
            ranks_bounded(state_of(graph)),
            before.next_node <= graph.next_node() <= before.next_node + 2 * i,
            graph.next_edge() <= before.next_edge + 2 * i,
            forall|k: int|
                i <= k < list@.len() ==> graph.edge_map().contains_key(#[trigger] list@[k])
                    && before.edges.contains_key(list@[k]) && graph.edge_map()[list@[k]]
                    == before.edges[list@[k]],
            is_paired(
                Segmented {
                    state: state_of(graph),
                    pvertices: pvertices@,
                    qvertices: qvertices@,
                },
            ),
            are_new(before.next_node, pvertices@, qvertices@),
            forall|e: usize| #[trigger]
                graph.edge_map().contains_key(e) && !(exists|k: int|
                    i <= k < list@.len() && #[trigger] list@[k] == e) ==> is_short_or_segment(
                    Segmented {
                        state: state_of(graph),
                        pvertices: pvertices@,
                        qvertices: qvertices@,
                    },
                    e,
                ),
    {
        let id: usize = list[i];
        let ghost s0 = Segmented {
            state: state_of(graph),
            pvertices: pvertices@,
            qvertices: qvertices@,
        };
        proof {
            assert(graph.edge_map().contains_key(list@[i as int]));
            assert(list@.subrange(0, i + 1).drop_last() =~= list@.subrange(0, i as int));
            graph.lemma_members();
        }
        let edge = graph.get_edge(id).unwrap();
        let from: usize = edge.from_id();
        let to: usize = edge.to_id();
        let data = *edge.data();
        proof {
            assert(s0.state.nodes.contains_key(from) && s0.state.nodes.contains_key(to));
        }
        let r0: usize = layer_of(graph, from);
        let r1: usize = layer_of(graph, to);
        if r1 > r0 + 1 {
            let span = EdgeLayoutData {
                minlen: 1,
                weight: 1,
                reversed: data.reversed,
                orig: data.orig,
                port_start: None,
                port_end: None,
            };
            let low = NodeLayoutData {
                rank: (r0 + 1) as i64,
                order: 0,
                is_dummy: true,
                self_loops: 0,
            };
            proof {
                law_make_node_keeps_links(
                    s0.state.nodes,
                    s0.state.edges,
                    s0.state.next_node as usize,
                    low,
                );
            }
            let p: usize = graph.make_node(low);
            let ghost s1 = state_of(graph);
            if r1 == r0 + 2 {
                proof {
                    law_remove_edge_keeps_links(s1.nodes, s1.edges, id);
                }
                graph.remove_edge(id);
                let ghost s2 = state_of(graph);
                proof {
                    law_make_edge_keeps_links(
                        s2.nodes,
                        s2.edges,
                        s2.next_edge as usize,
                        EdgeEntry { from, to: p, data: span },
                    );
                }
                graph.make_edge(from, p, span);
                let ghost s3 = state_of(graph);
                proof {
                    law_make_edge_keeps_links(
                        s3.nodes,
                        s3.edges,
                        s3.next_edge as usize,
                        EdgeEntry { from: p, to, data: span },
                    );
                }
                graph.make_edge(p, to, span);
                proof {
                    let s4 = Segmented { state: state_of(graph), ..s0 };
                    assert(s4 == with_short_edge(s0, id));
                    lemma_lanes_stay(s0, s4, id, before.next_node);
                    lemma_short_edges_stay(s0, s4, list@, i as int, id, s2.next_edge as usize, s3.next_edge as usize);
                }
            } else {
                let high = NodeLayoutData {
                    rank: (r1 - 1) as i64,
                    order: 0,
                    is_dummy: true,
                    self_loops: 0,
                };
                proof {
                    law_make_node_keeps_links(s1.nodes, s1.edges, s1.next_node as usize, high);
                }
                let q: usize = graph.make_node(high);
                let ghost s2 = state_of(graph);
                proof {
                    law_edit_edge_keeps_links(s2.nodes, s2.edges, id, p, q);
                }
                graph.edit_edge(id, p, q);
                let ghost s3 = state_of(graph);
                proof {
                    law_make_edge_keeps_links(
                        s3.nodes,
                        s3.edges,
                        s3.next_edge as usize,
                        EdgeEntry { from, to: p, data: span },
                    );
                }
                graph.make_edge(from, p, span);
                let ghost s4 = state_of(graph);
                proof {
                    law_make_edge_keeps_links(
                        s4.nodes,
                        s4.edges,
                        s4.next_edge as usize,
                        EdgeEntry { from: q, to, data: span },
                    );
                }
                graph.make_edge(q, to, span);
                fx::set_insert(&mut pvertices, p);
                fx::set_insert(&mut qvertices, q);
                proof {
                    let s5 = Segmented {
                        state: state_of(graph),
                        pvertices: pvertices@,
                        qvertices: qvertices@,
                    };
                    assert(s5 == with_short_edge(s0, id));
                    lemma_lanes_stay(s0, s5, id, before.next_node);
                    lemma_short_edges_stay(s0, s5, list@, i as int, id, s3.next_edge as usize, s4.next_edge as usize);
                }
            }
        } else {
            proof {
                assert forall|e: usize| #[trigger]
                    graph.edge_map().contains_key(e) && !(exists|k: int|
                        i + 1 <= k < list@.len() && #[trigger] list@[k] == e) implies is_short_or_segment(
                    s0,
                    e,
                ) by {
                    if e != id {
                        if exists|k: int| i <= k < list@.len() && #[trigger] list@[k] == e {
                            let k = choose|k: int| i <= k < list@.len() && #[trigger] list@[k] == e;
                            assert(list@[k] == e);
                        }
                    }
                }
            }
        }
        proof {
            assert forall|k: int| i + 1 <= k < list@.len() implies graph.edge_map().contains_key(
                #[trigger] list@[k],
            ) by {
                assert(list@[k] != list@[i as int]);
                assert(s0.state.edges.contains_key(list@[k]));
            }
        }
    }
    assert(list@.subrange(0, list@.len() as int) =~= list@);
    SegmentInfo { pvertices, qvertices }
}

/// Dummies have identifiers that were free at first.
pub open spec fn are_new(next: nat, pvertices: Set<usize>, qvertices: Set<usize>) -> bool {
    &&& forall|p: usize| #[trigger] pvertices.contains(p) ==> p >= next
    &&& forall|q: usize| #[trigger] qvertices.contains(q) ==> q >= next
}

/// Segments stay paired while an edge between other nodes is split.
proof fn lemma_lanes_stay(before: Segmented, after: Segmented, id: usize, next: nat)
    requires
        before.state.is_sound(),
        is_paired(before),
        are_new(next, before.pvertices, before.qvertices),
        next <= before.state.next_node,
        before.state.next_node + 2 <= usize::MAX,
        before.state.next_edge + 2 <= usize::MAX,
        before.state.edges.contains_key(id),
        before.state.edges[id].from < next,
        before.state.edges[id].to < next,
        ranks_bounded(before.state),
        layer_in(before.state, before.state.edges[id].to) > layer_in(
            before.state,
            before.state.edges[id].from,
        ) + 1,
        after == with_short_edge(before, id),
    ensures
        is_paired(after),
        are_new(next, after.pvertices, after.qvertices),
{
    let s = before.state;
    let t = after.state;
    let edge = s.edges[id];
    let first = s.next_node as usize;
    let second = (s.next_node + 1) as usize;
    assert(s.nodes.contains_key(edge.from) && s.nodes.contains_key(edge.to));
    assert forall|n: usize| #[trigger] s.nodes.contains_key(n) && n >= next implies t.nodes.contains_key(n) && t.nodes[n]
        == s.nodes[n] by {}
    assert forall|n: usize| #[trigger] s.nodes.contains_key(n) implies t.nodes[n].data
        == s.nodes[n].data by {}
    assert forall|e: usize| #[trigger] s.edges.contains_key(e) && e != id implies t.edges.contains_key(e) && t.edges[e]
        == s.edges[e] by {}
    assert forall|p: usize| #[trigger] after.pvertices.contains(p) implies leads_to_q(after, p) by {
        if before.pvertices.contains(p) {
            assert(leads_to_q(before, p));
            let e = s.nodes[p].edges[0];
            let q = s.edges[e].to;
            assert(comes_from_p(before, q));
            assert(e != id);
            assert(t.nodes[p] == s.nodes[p] && t.nodes[q] == s.nodes[q]);
        } else {
            assert(p == first);
            assert(t.nodes[p].edges[0] == id);
            assert(t.nodes[second].edges[0] == id);
        }
    }
    assert forall|q: usize| #[trigger] after.qvertices.contains(q) implies comes_from_p(after, q) by {
        if before.qvertices.contains(q) {
            assert(comes_from_p(before, q));
            let e = s.nodes[q].edges[0];
            let p = s.edges[e].from;
            assert(leads_to_q(before, p));
            assert(e != id);
            assert(t.nodes[p] == s.nodes[p] && t.nodes[q] == s.nodes[q]);
        } else {
            assert(q == second);
            assert(t.nodes[first].edges[0] == id);
            assert(t.nodes[q].edges[0] == id);
        }
    }
}

/// Edges that were short, or segments, stay so while another edge is split.
proof fn lemma_short_edges_stay(
    before: Segmented,
    after: Segmented,
    list: Seq<usize>,
    i: int,
    id: usize,
    a: usize,
    b: usize,
)
    requires
        before.state.is_sound(),
        after.state.is_sound(),
        ranks_bounded(before.state),
        before.state.next_node + 2 <= usize::MAX,
        before.state.next_edge + 2 <= usize::MAX,
        list.no_duplicates(),
        0 <= i < list.len(),
        list[i] == id,
        before.state.edges.contains_key(id),
        layer_in(before.state, before.state.edges[id].to) > layer_in(
            before.state,
            before.state.edges[id].from,
        ) + 1,
        after == with_short_edge(before, id),
        a == before.state.next_edge,
        b == before.state.next_edge + 1,
        forall|e: usize| #[trigger]
            before.state.edges.contains_key(e) && !(exists|k: int|
                i <= k < list.len() && #[trigger] list[k] == e) ==> is_short_or_segment(before, e),
    ensures
        forall|e: usize| #[trigger]
            after.state.edges.contains_key(e) && !(exists|k: int|
                i + 1 <= k < list.len() && #[trigger] list[k] == e) ==> is_short_or_segment(
                after,
                e,
            ),
        ranks_bounded(after.state),
{
    let s = before.state;
    let edge = s.edges[id];
    assert(s.nodes.contains_key(edge.from) && s.nodes.contains_key(edge.to));
    assert forall|n: usize| #[trigger] s.nodes.contains_key(n) implies after.state.nodes.contains_key(
        n,
    ) && after.state.nodes[n].data == s.nodes[n].data by {}
    assert forall|e: usize| #[trigger]
        after.state.edges.contains_key(e) && !(exists|k: int|
            i + 1 <= k < list.len() && #[trigger] list[k] == e) implies is_short_or_segment(
        after,
        e,
    ) by {
        if e != a && e != b && e != id {
            assert(s.edges.contains_key(e));
            if exists|k: int| i <= k < list.len() && #[trigger] list[k] == e {
                let k = choose|k: int| i <= k < list.len() && #[trigger] list[k] == e;
                assert(list[k] == e);
            }
            assert(is_short_or_segment(before, e));
            assert(s.nodes.contains_key(s.edges[e].from) && s.nodes.contains_key(s.edges[e].to));
        }
    }
}

} // verus!
