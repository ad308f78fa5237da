//! The way of an original edge through the layout.
//!
//! Each original edge is a chain of internal edges (real, dummies, real). The chain is
//! walked from its tail to its head. A back-edge is reassembled from its gadget: from the
//! source down, up the column, and into the target.
use crate::graph::edge::Edge;
use crate::graph::Graph;
use crate::sorting::{is_sorted_order, sort_pairs, sorted_order, sorted_pairs, Key};
use crate::triskel::layout_graph::{state_of, LayoutGraph, LayoutState};
use vstd::prelude::*;

verus! {

// Ports.

/// The edges of a list that leave a node (or enter it), with what they are ordered by: the
/// order of the other end, its identifier, and their own.
pub open spec fn port_keys(state: LayoutState, v: usize, list: Seq<usize>, out: bool, k: int) -> Seq<Key>
    decreases k,
{
    if k <= 0 {
        Seq::empty()
    } else {
        let before = port_keys(state, v, list, out, k - 1);
        let e = list[k - 1];
        let (own, other) = if out {
            (state.edges[e].from, state.edges[e].to)
        } else {
            (state.edges[e].to, state.edges[e].from)
        };
        if own == v {
            before.push((state.nodes[other].data.order, other, e))
        } else {
            before
        }
    }
}

/// The edges by their keys.
pub open spec fn is_port_order(keys: Seq<Key>, ids: Seq<usize>) -> bool {
    exists|order: Seq<usize>| #[trigger]
        is_sorted_order(keys, order) && ids == order.map_values(|i: usize| keys[i as int].2)
}

fn ordered_edges(graph: &LayoutGraph, v: usize, out: bool) -> (ids: Vec<usize>)
    requires
        graph.wf(),
        state_of(graph).is_sound(),
        graph.node_map().contains_key(v),
    ensures
        ({
            let list = state_of(graph).nodes[v].edges;
            is_port_order(port_keys(state_of(graph), v, list, out, list.len() as int), ids@)
        }),
{
    let ghost state = state_of(graph);
    proof {
        graph.lemma_members();
        graph.lemma_linked_is_navigable();
    }
    let list = graph.incident(v);
    let mut keys: Vec<Key> = Vec::new();
    for k in 0..list.len()
        invariant
            graph.wf(),
            state == state_of(graph),
            state.is_sound(),
            state.nodes.contains_key(v),
            list@ == state.nodes[v].edges,
            keys@ == port_keys(state, v, list@, out, k as int),
    {
        let e: usize = list[k];
        proof {
            graph.lemma_members();
            assert(state.nodes[v].edges.contains(e));
            assert(graph.spec_edges().contains(e));
            assert(state.edges.contains_key(e));
        }
        let (from, to): (usize, usize) = (graph.source(e), graph.target(e));
        let (own, other): (usize, usize) = if out {
            (from, to)
        } else {
            (to, from)
        };
        if own == v {
            keys.push((graph.get_node(other).unwrap().data().order, other, e));
        }
    }
    let order = sorted_order(&keys);
    let mut ids: Vec<usize> = Vec::new();
    for i in 0..order.len()
        invariant
            is_sorted_order(keys@, order@),
            ids@ == order@.map_values(|i: usize| keys@[i as int].2).take(i as int),
    {
        assert(order@[i as int] < keys@.len());
        ids.push(keys[order[i]].2);
        assert(ids@ =~= order@.map_values(|i: usize| keys@[i as int].2).take(i + 1));
    }
    assert(ids@ =~= order@.map_values(|i: usize| keys@[i as int].2));
    ids
}

/// A node's outgoing edges, ordered as they fan across its bottom face: by the target's
/// within-rank order, then its identifier, then their own.
pub fn ordered_out_edges(graph: &LayoutGraph, v: usize) -> (ids: Vec<usize>)
    requires
        graph.wf(),
        state_of(graph).is_sound(),
        graph.node_map().contains_key(v),
    ensures
        ({
            let list = state_of(graph).nodes[v].edges;
            is_port_order(port_keys(state_of(graph), v, list, true, list.len() as int), ids@)
        }),
{
    ordered_edges(graph, v, true)
}

/// A node's incoming edges, ordered as they fan across its top face.
pub fn ordered_in_edges(graph: &LayoutGraph, v: usize) -> (ids: Vec<usize>)
    requires
        graph.wf(),
        state_of(graph).is_sound(),
        graph.node_map().contains_key(v),
    ensures
        ({
            let list = state_of(graph).nodes[v].edges;
            is_port_order(port_keys(state_of(graph), v, list, false, list.len() as int), ids@)
        }),
{
    ordered_edges(graph, v, false)
}

// Groups.

/// The internal edges of one original edge, ascending.
pub struct Group {
    pub orig: usize,
    pub edges: Vec<usize>,
}

/// The edges with the originals that they belong to.
pub open spec fn with_originals(state: LayoutState, list: Seq<usize>) -> Seq<(usize, usize)> {
    list.map_values(|e: usize| (state.edges[e].data.orig, e))
}

/// The pairs in runs with the same first number.
pub open spec fn runs_of(pairs: Seq<(usize, usize)>, k: int) -> Seq<(usize, Seq<usize>)>
    decreases k,
{
    if k <= 0 {
        Seq::empty()
    } else {
        let before = runs_of(pairs, k - 1);
        let (orig, e) = pairs[k - 1];
        if before.len() > 0 && before.last().0 == orig {
            before.drop_last().push((orig, before.last().1.push(e)))
        } else {
            before.push((orig, seq![e]))
        }
    }
}

pub open spec fn groups_view(groups: Seq<Group>) -> Seq<(usize, Seq<usize>)> {
    groups.map_values(|g: Group| (g.orig, g.edges@))
}

/// Groups internal edges by the original edge they belong to, in ascending order.
pub fn collect_groups(graph: &LayoutGraph) -> (groups: Vec<Group>)
    requires
        graph.wf(),
    ensures
        ({
            let pairs = sorted_pairs(with_originals(state_of(graph), graph.spec_edges()));
            groups_view(groups@) == runs_of(pairs, pairs.len() as int)
        }),
{
    let ghost state = state_of(graph);
    let list = graph.edge_ids();
    let mut pairs: Vec<(usize, usize)> = Vec::new();
    for k in 0..list.len()
        invariant
            graph.wf(),
            state == state_of(graph),
            list@ == graph.spec_edges(),
            pairs@ == with_originals(state, list@).take(k as int),
    {
        proof {
            graph.lemma_members();
            assert(graph.spec_edges().contains(list@[k as int]));
        }
        pairs.push((graph.get_edge(list[k]).unwrap().data().orig, list[k]));
        assert(pairs@ =~= with_originals(state, list@).take(k + 1));
    }
    assert(pairs@ =~= with_originals(state, list@));
    let sorted = sort_pairs(&pairs);
    let mut groups: Vec<Group> = Vec::new();
    assert(groups_view(groups@) =~= runs_of(sorted@, 0));
    for k in 0..sorted.len()
        invariant
            groups_view(groups@) == runs_of(sorted@, k as int),
    {
        let (orig, e) = sorted[k];
        let ghost before = groups_view(groups@);
        let same = if groups.len() == 0 {
            false
        } else {
            groups[groups.len() - 1].orig == orig
        };
        if same {
            let mut last = groups.pop().unwrap();
            last.edges.push(e);
            groups.push(last);
            assert(groups_view(groups@) =~= before.drop_last().push(
                (orig, before.last().1.push(e)),
            ));
        } else {
            let mut edges: Vec<usize> = Vec::new();
            edges.push(e);
            assert(edges@ =~= seq![e]);
            groups.push(Group { orig, edges });
            assert(groups_view(groups@) =~= before.push((orig, seq![e])));
        }
    }
    groups
}

// Walks.

/// One of the internal edges of an original edge.
#[derive(Clone, Copy, Debug, PartialEq, Eq)]
pub struct Piece {
    pub edge: usize,
    pub from: usize,
    pub to: usize,
    pub from_dummy: bool,
    pub to_dummy: bool,
    pub reversed: bool,
}

/// The last of the first `k` pieces that leads away from `v`.
pub open spec fn next_piece(pieces: Seq<Piece>, v: usize, k: int) -> Option<int>
    decreases k,
{
    if k <= 0 {
        None
    } else if pieces[k - 1].from == v {
        Some(k - 1)
    } else {
        next_piece(pieces, v, k - 1)
    }
}

/// The pieces that a walk from `v` takes, each once at most.
pub open spec fn walk_pieces(pieces: Seq<Piece>, v: usize, fuel: nat) -> Seq<int>
    decreases fuel,
{
    match next_piece(pieces, v, pieces.len() as int) {
        Some(i) => if fuel == 0 {
            Seq::empty()
        } else {
            seq![i] + walk_pieces(pieces, pieces[i].to, (fuel - 1) as nat)
        },
        None => Seq::empty(),
    }
}

/// No piece leads to where piece `i` starts.
pub open spec fn is_tail(pieces: Seq<Piece>, i: int) -> bool {
    forall|j: int|
        #![trigger pieces[j]]
        0 <= j < pieces.len() ==> pieces[j].to != pieces[i].from
}

/// The first piece that starts where none leads to.
pub open spec fn first_tail(pieces: Seq<Piece>, k: int) -> Option<int>
    decreases pieces.len() - k,
{
    if k >= pieces.len() {
        None
    } else if is_tail(pieces, k) {
        Some(k)
    } else {
        first_tail(pieces, k + 1)
    }
}

/// The way of an edge: the nodes it passes, and its first and last internal edge.
pub struct Way {
    pub nodes: Vec<usize>,
    pub first: usize,
    pub last: usize,
}

/// The mathematical reading of a way.
pub struct WayView {
    pub nodes: Seq<usize>,
    pub first: usize,
    pub last: usize,
}

impl View for Way {
    type V = WayView;

    open spec fn view(&self) -> WayView {
        WayView { nodes: self.nodes@, first: self.first, last: self.last }
    }
}

/// The nodes that a walk passes.
pub open spec fn walk_nodes(pieces: Seq<Piece>, v: usize, walk: Seq<int>) -> Seq<usize> {
    seq![v] + walk.map_values(|i: int| pieces[i].to)
}

/// The way of a forward edge, from its tail to its head.
pub open spec fn chain_way(pieces: Seq<Piece>) -> Option<WayView> {
    match first_tail(pieces, 0) {
        Some(t) => {
            let walk = walk_pieces(pieces, pieces[t].from, pieces.len());
            Some(
                WayView {
                    nodes: walk_nodes(pieces, pieces[t].from, walk),
                    first: pieces[walk[0]].edge,
                    last: pieces[walk.last()].edge,
                },
            )
        },
        None => None,
    }
}

/// The last of the first `k` pieces with these ends.
pub open spec fn attachment(pieces: Seq<Piece>, from_dummy: bool, to_dummy: bool, k: int) -> Option<
    int,
>
    decreases k,
{
    if k <= 0 {
        None
    } else if pieces[k - 1].from_dummy == from_dummy && pieces[k - 1].to_dummy == to_dummy {
        Some(k - 1)
    } else {
        attachment(pieces, from_dummy, to_dummy, k - 1)
    }
}

/// The pieces between dummies.
pub open spec fn column_of(pieces: Seq<Piece>, k: int) -> Seq<Piece>
    decreases k,
{
    if k <= 0 {
        Seq::empty()
    } else {
        let before = column_of(pieces, k - 1);
        if pieces[k - 1].from_dummy && pieces[k - 1].to_dummy {
            before.push(pieces[k - 1])
        } else {
            before
        }
    }
}

/// The way of a back-edge: from the source to the foot of the column, up the column, and
/// into the target. None if the pieces are no gadget.
pub open spec fn gadget_way(pieces: Seq<Piece>) -> Option<WayView> {
    let n = pieces.len() as int;
    match (
        attachment(pieces, false, false, n),
        attachment(pieces, false, true, n),
        attachment(pieces, true, false, n),
    ) {
        (None, Some(s), Some(t)) => {
            let column = column_of(pieces, n);
            let top = pieces[t].from;
            let nodes = walk_nodes(column, top, walk_pieces(column, top, column.len()));
            if nodes.last() != pieces[s].to {
                None
            } else {
                Some(
                    WayView {
                        nodes: seq![pieces[s].from] + nodes.reverse() + seq![pieces[t].to],
                        first: pieces[s].edge,
                        last: pieces[t].edge,
                    },
                )
            }
        },
        _ => None,
    }
}

/// Some piece belongs to a back-edge.
pub open spec fn has_reversed(pieces: Seq<Piece>) -> bool {
    exists|i: int| #![trigger pieces[i]] 0 <= i < pieces.len() && pieces[i].reversed
}

/// The way of an edge.
pub open spec fn way_of(pieces: Seq<Piece>) -> Option<WayView> {
    if has_reversed(pieces) {
        gadget_way(pieces)
    } else {
        chain_way(pieces)
    }
}

fn find_next(pieces: &Vec<Piece>, v: usize) -> (i: Option<usize>)
    ensures
        match (i, next_piece(pieces@, v, pieces@.len() as int)) {
            (Some(i), Some(k)) => i == k && i < pieces@.len() && pieces@[i as int].from == v,
            (None, None) => true,
            _ => false,
        },
{
    let mut k: usize = pieces.len();
    while k > 0
        invariant
            k <= pieces@.len(),
            next_piece(pieces@, v, k as int) == next_piece(pieces@, v, pieces@.len() as int),
        decreases k,
    {
        if pieces[k - 1].from == v {
            return Some(k - 1);
        }
        k = k - 1;
    }
    None
}

fn find_attachment(pieces: &Vec<Piece>, from_dummy: bool, to_dummy: bool) -> (i: Option<usize>)
    ensures
        match (i, attachment(pieces@, from_dummy, to_dummy, pieces@.len() as int)) {
            (Some(i), Some(k)) => i == k && i < pieces@.len(),
            (None, None) => true,
            _ => false,
        },
{
    let mut k: usize = pieces.len();
    while k > 0
        invariant
            k <= pieces@.len(),
            attachment(pieces@, from_dummy, to_dummy, k as int) == attachment(
                pieces@,
                from_dummy,
                to_dummy,
                pieces@.len() as int,
            ),
        decreases k,
    {
        if pieces[k - 1].from_dummy == from_dummy && pieces[k - 1].to_dummy == to_dummy {
            return Some(k - 1);
        }
        k = k - 1;
    }
    None
}

/// Walks on from a node.
fn walk_on(pieces: &Vec<Piece>, v: usize) -> (walk: Vec<usize>)
    ensures
        walk@.len() == walk_pieces(pieces@, v, pieces@.len()).len(),
        forall|k: int|
            0 <= k < walk@.len() ==> #[trigger] walk@[k] < pieces@.len() && walk@[k] == walk_pieces(
                pieces@,
                v,
                pieces@.len(),
            )[k],
{
    let mut walk: Vec<usize> = Vec::new();
    let mut cur: usize = v;
    let mut fuel: usize = pieces.len();
    let ghost goal = walk_pieces(pieces@, v, pieces@.len());
    let ghost mut done: Seq<int> = Seq::empty();
    assert(done + goal =~= goal);
    while fuel > 0
        invariant
            goal == walk_pieces(pieces@, v, pieces@.len()),
            done + walk_pieces(pieces@, cur, fuel as nat) == goal,
            walk@.len() == done.len(),
            forall|k: int|
                0 <= k < walk@.len() ==> #[trigger] walk@[k] < pieces@.len() && walk@[k] == done[k],
        decreases fuel,
    {
        match find_next(pieces, cur) {
            Some(i) => {
                let ghost rest = walk_pieces(
                    pieces@,
                    pieces@[i as int].to,
                    (fuel - 1) as nat,
                );
                let ghost before = done;
                proof {
                    done = done.push(i as int);
                    assert(before + (seq![i as int] + rest) =~= done + rest);
                }
                walk.push(i);
                cur = pieces[i].to;
                fuel = fuel - 1;
            },
            None => {
                assert(done =~= goal);
                return walk;
            },
        }
    }
    assert(walk_pieces(pieces@, cur, 0) =~= Seq::empty());
    assert(done =~= goal);
    walk
}

fn walked_nodes(pieces: &Vec<Piece>, v: usize, walk: &Vec<usize>, Ghost(goal): Ghost<Seq<int>>) -> (nodes: Vec<usize>)
    requires
        walk@.len() == goal.len(),
        forall|k: int|
            0 <= k < walk@.len() ==> #[trigger] walk@[k] < pieces@.len() && walk@[k] == goal[k],
    ensures
        nodes@ == walk_nodes(pieces@, v, goal),
{
    let mut nodes: Vec<usize> = Vec::new();
    nodes.push(v);
    let ghost all = walk_nodes(pieces@, v, goal);
    assert(nodes@ =~= all.take(1));
    for k in 0..walk.len()
        invariant
            walk@.len() == goal.len(),
            forall|k: int|
                0 <= k < walk@.len() ==> #[trigger] walk@[k] < pieces@.len() && walk@[k] == goal[k],
            all == walk_nodes(pieces@, v, goal),
            nodes@ == all.take(k + 1),
    {
        assert(walk@[k as int] < pieces@.len());
        nodes.push(pieces[walk[k]].to);
        assert(nodes@ =~= all.take(k + 2));
    }
    assert(nodes@ =~= all);
    nodes
}

/// Walks a forward chain from tail to head.
pub fn trace_chain(pieces: &Vec<Piece>) -> (way: Option<Way>)
    ensures
        match (way, chain_way(pieces@)) {
            (Some(way), Some(view)) => way@ == view,
            (None, None) => true,
            _ => false,
        },
{
    for t in 0..pieces.len()
        invariant
            first_tail(pieces@, t as int) == first_tail(pieces@, 0),
    {
        let mut tail: bool = true;
        for j in 0..pieces.len()
            invariant
                t < pieces@.len(),
                tail == forall|k: int|
                    #![trigger pieces@[k]]
                    0 <= k < j ==> pieces@[k].to != pieces@[t as int].from,
        {
            if pieces[j].to == pieces[t].from {
                tail = false;
            }
        }
        assert(tail == is_tail(pieces@, t as int));
        if tail {
            let v: usize = pieces[t].from;
            let walk = walk_on(pieces, v);
            let ghost goal = walk_pieces(pieces@, v, pieces@.len());
            proof {
                lemma_next_piece(pieces@, v, t as int, pieces@.len() as int);
                assert(goal.len() > 0);
            }
            let nodes = walked_nodes(pieces, v, &walk, Ghost(goal));
            assert(walk@[0] == goal[0]);
            assert(walk@[walk@.len() - 1] == goal.last());
            return Some(
                Way {
                    nodes,
                    first: pieces[walk[0]].edge,
                    last: pieces[walk[walk.len() - 1]].edge,
                },
            );
        }
    }
    None
}

/// A piece that starts at `v` is found.
proof fn lemma_next_piece(pieces: Seq<Piece>, v: usize, t: int, k: int)
    requires
        0 <= t < k <= pieces.len(),
        pieces[t].from == v,
    ensures
        next_piece(pieces, v, k) is Some,
    decreases k,
{
    if pieces[k - 1].from != v {
        lemma_next_piece(pieces, v, t, k - 1);
    }
}

/// Reassembles a back-edge gadget.
pub fn trace_gadget(pieces: &Vec<Piece>) -> (way: Option<Way>)
    ensures
        match (way, gadget_way(pieces@)) {
            (Some(way), Some(view)) => way@ == view,
            (None, None) => true,
            _ => false,
        },
{
    let plain = find_attachment(pieces, false, false);
    let source = find_attachment(pieces, false, true);
    let target = find_attachment(pieces, true, false);
    match (plain, source, target) {
        (None, Some(s), Some(t)) => {
            let mut column: Vec<Piece> = Vec::new();
            for k in 0..pieces.len()
                invariant
                    column@ == column_of(pieces@, k as int),
            {
                if pieces[k].from_dummy && pieces[k].to_dummy {
                    column.push(pieces[k]);
                }
            }
            let top: usize = pieces[t].from;
            let walk = walk_on(&column, top);
            let ghost goal = walk_pieces(column@, top, column@.len());
            let up = walked_nodes(&column, top, &walk, Ghost(goal));
            if up[up.len() - 1] != pieces[s].to {
                return None;
            }
            let mut nodes: Vec<usize> = Vec::new();
            nodes.push(pieces[s].from);
            let ghost first = seq![pieces@[s as int].from];
            let ghost turned = up@.reverse();
            let mut k: usize = up.len();
            assert(nodes@ =~= first + turned.take(0));
            while k > 0
                invariant
                    k <= up@.len(),
                    turned == up@.reverse(),
                    nodes@ == first + turned.take(up@.len() - k),
                decreases k,
            {
                k = k - 1;
                nodes.push(up[k]);
                assert(nodes@ =~= first + turned.take(up@.len() - k));
            }
            assert(turned.take(up@.len() as int) =~= turned);
            nodes.push(pieces[t].to);
            assert(nodes@ =~= first + turned + seq![pieces@[t as int].to]);
            Some(Way { nodes, first: pieces[s].edge, last: pieces[t].edge })
        },
        _ => None,
    }
}

/// The way of an original edge, from its source to its target.
pub fn trace_way(pieces: &Vec<Piece>) -> (way: Option<Way>)
    ensures
        match (way, way_of(pieces@)) {
            (Some(way), Some(view)) => way@ == view,
            (None, None) => true,
            _ => false,
        },
{
    let mut reversed: bool = false;
    for i in 0..pieces.len()
        invariant
            reversed == exists|k: int|
                #![trigger pieces@[k]]
                0 <= k < i && pieces@[k].reversed,
    {
        if pieces[i].reversed {
            reversed = true;
        }
    }
    assert(reversed == has_reversed(pieces@));
    if reversed {
        trace_gadget(pieces)
    } else {
        trace_chain(pieces)
    }
}

/// The pieces of a group of internal edges.
pub open spec fn pieces_of(state: LayoutState, edges: Seq<usize>) -> Seq<Piece> {
    edges.map_values(
        |e: usize|
            Piece {
                edge: e,
                from: state.edges[e].from,
                to: state.edges[e].to,
                from_dummy: state.nodes[state.edges[e].from].data.is_dummy,
                to_dummy: state.nodes[state.edges[e].to].data.is_dummy,
                reversed: state.edges[e].data.reversed,
            },
    )
}

/// Looks up the pieces of a group.
pub fn collect_pieces(graph: &LayoutGraph, edges: &Vec<usize>) -> (pieces: Vec<Piece>)
    requires
        graph.wf(),
        state_of(graph).is_sound(),
        forall|i: int| 0 <= i < edges@.len() ==> graph.edge_map().contains_key(#[trigger] edges@[i]),
    ensures
        pieces@ == pieces_of(state_of(graph), edges@),
{
    let ghost state = state_of(graph);
    let mut pieces: Vec<Piece> = Vec::new();
    for i in 0..edges.len()
        invariant
            graph.wf(),
            state == state_of(graph),
            state.is_sound(),
            forall|i: int| 0 <= i < edges@.len() ==> state.edges.contains_key(#[trigger] edges@[i]),
            pieces@ == pieces_of(state, edges@).take(i as int),
    {
        let e: usize = edges[i];
        proof {
            assert(state.edges.contains_key(edges@[i as int]));
            graph.lemma_members();
        }
        let edge = graph.get_edge(e).unwrap();
        let (from, to): (usize, usize) = (edge.from_id(), edge.to_id());
        let reversed = edge.data().reversed;
        assert(state.nodes.contains_key(from) && state.nodes.contains_key(to));
        pieces.push(
            Piece {
                edge: e,
                from,
                to,
                from_dummy: graph.get_node(from).unwrap().data().is_dummy,
                to_dummy: graph.get_node(to).unwrap().data().is_dummy,
                reversed,
            },
        );
        assert(pieces@ =~= pieces_of(state, edges@).take(i + 1));
    }
    assert(pieces@ =~= pieces_of(state, edges@));
    pieces
}

} // verus!
