//! The parts of a graph that are laid out on their own, and the phases of a layout up to
//! the order within ranks.
use crate::graph::analysis::sese::{ends_below, lemma_sublist_length, sort_ids, IEdge};
use crate::graph::laws::{law_make_edge_keeps_links, law_make_node_keeps_links};
use crate::graph::node::{lemma_relations, relations, EdgeMode};
use crate::graph::owning::{is_linked, EdgeEntry, NodeEntry, OwningGraph};
use crate::graph::walk::{
    is_walk, lemma_extend, lemma_reaches_transitive, lemma_trivial_walk, reaches, step_at,
    walk_between,
};
use crate::graph::{dfs_steps, is_navigable, neighbours, Graph, Traverse, Undirected};
use crate::registry::{lemma_id_injective, Identifier};
use crate::triskel::cycle::{break_cycles, found_back, is_acyclic, with_gadget, with_gadgets};
use crate::triskel::layout_graph::{
    lists_edges, lists_nodes, state_of, EdgeLayoutData, LayoutGraph, LayoutState, NodeLayoutData,
};
use crate::triskel::cells::is_slotting;
use crate::triskel::order::{
    can_be_ordered, has_orders, height_of, law_slots_hold_the_layout, lemma_orders_keep_slotting,
    order, room, slot_rows, wiring, RowOrder,
};
use crate::triskel::rank::{
    assign_ranks, hangs_together, has_small_numbers, is_simplex_layout, neighbours_of, only_ranks_differ, ranks_fit,
    ranks_start_at_zero,
};
use crate::triskel::segment::{
    build_segments, is_paired, is_segmented, ranks_bounded, with_short_edges, SegmentInfo,
    Segmented,
};
use vstd::prelude::*;

verus! {

// Steps in both directions.

/// Where the same steps can be taken, the same nodes can be reached.
pub proof fn lemma_reaches_same<N>(
    e: spec_fn(N, N) -> bool,
    f: spec_fn(N, N) -> bool,
    a: N,
    b: N,
)
    requires
        forall|x: N, y: N| #[trigger] e(x, y) ==> f(x, y),
        reaches(e, a, b),
    ensures
        reaches(f, a, b),
{
    let p = choose|p: Seq<N>| walk_between(e, p, a, b);
    assert(walk_between(f, p, a, b)) by {
        assert forall|i: int| 0 <= i < p.len() - 1 implies #[trigger] step_at(f, p, i) by {
            assert(step_at(e, p, i));
            assert(e(p[i], p[i + 1]));
        }
    }
}

/// Where each step can be replaced by a walk, each walk can.
pub proof fn lemma_reaches_refined<N>(
    e: spec_fn(N, N) -> bool,
    f: spec_fn(N, N) -> bool,
    p: Seq<N>,
    i: int,
)
    requires
        forall|x: N, y: N| #[trigger] e(x, y) ==> reaches(f, x, y),
        is_walk(e, p),
        0 <= i < p.len(),
    ensures
        reaches(f, p[0], p[i]),
    decreases i,
{
    if i == 0 {
        lemma_trivial_walk(f, p[0]);
    } else {
        lemma_reaches_refined(e, f, p, i - 1);
        assert(step_at(e, p, i - 1));
        assert(e(p[i - 1], p[i]));
        lemma_reaches_transitive(f, p[0], p[i - 1], p[i]);
    }
}

/// A walk of steps that can be taken both ways can be walked back.
pub proof fn lemma_reaches_back<N>(e: spec_fn(N, N) -> bool, p: Seq<N>, i: int)
    requires
        forall|x: N, y: N| #[trigger] e(x, y) ==> e(y, x),
        is_walk(e, p),
        0 <= i < p.len(),
    ensures
        reaches(e, p[i], p[0]),
    decreases i,
{
    lemma_trivial_walk(e, p[0]);
    if i > 0 {
        lemma_reaches_back(e, p, i - 1);
        assert(step_at(e, p, i - 1));
        assert(e(p[i], p[i - 1]));
        lemma_trivial_walk(e, p[i]);
        lemma_extend(e, seq![p[i]], p[i], p[i], p[i - 1]);
        lemma_reaches_transitive(e, p[i], p[i - 1], p[0]);
    }
}

/// The steps over the edges of a graph, in both directions.
pub open spec fn links_of<NodeId, EdgeData, EdgeId>(
    edges: Map<EdgeId, EdgeEntry<NodeId, EdgeData>>,
) -> spec_fn(NodeId, NodeId) -> bool {
    |a: NodeId, b: NodeId|
        exists|e: EdgeId| #[trigger]
            edges.contains_key(e) && ((edges[e].from == a && edges[e].to == b) || (edges[e].from
                == b && edges[e].to == a))
}

/// A depth-first walk in both directions takes the steps over the edges.
proof fn lemma_undirected_steps<NodeId: Identifier, EdgeId: Identifier, ND, ED>(
    graph: &OwningGraph<NodeId, EdgeId, ND, ED>,
    a: NodeId,
    b: NodeId,
)
    requires
        graph.wf(),
        is_linked(graph.node_map(), graph.edge_map()),
    ensures
        dfs_steps::<Undirected, OwningGraph<NodeId, EdgeId, ND, ED>>(graph)(a, b) == links_of(
            graph.edge_map(),
        )(a, b),
{
    graph.lemma_members();
    graph.lemma_linked_is_navigable();
    let edges = graph.edge_map();
    let list = graph.spec_incident(a);
    let pairs = relations::<EdgeMode, OwningGraph<NodeId, EdgeId, ND, ED>>(graph, a, list);
    lemma_relations::<EdgeMode, OwningGraph<NodeId, EdgeId, ND, ED>>(graph, a, list);
    let near = neighbours::<EdgeMode, OwningGraph<NodeId, EdgeId, ND, ED>>(graph, a);
    if graph.spec_nodes().contains(a) {
        if near.contains(b) {
            let i = near.index_of(b);
            assert(pairs[i].1 == b);
            assert(pairs.contains((pairs[i].0, b)));
            let e = pairs[i].0;
            assert(list.contains(e));
            assert(graph.node_map()[a].edges.contains(e));
            lemma_id_injective(a, edges[e].from);
            assert(edges.contains_key(e));
        }
        if links_of(edges)(a, b) {
            let e = choose|e: EdgeId| #[trigger]
                edges.contains_key(e) && ((edges[e].from == a && edges[e].to == b) || (edges[e].from
                    == b && edges[e].to == a));
            assert(list.contains(e));
            lemma_id_injective(a, edges[e].from);
            assert(pairs.contains((e, b)));
            let i = pairs.index_of((e, b));
            assert(near[i] == b);
        }
    } else {
        if links_of(edges)(a, b) {
            let e = choose|e: EdgeId| #[trigger]
                edges.contains_key(e) && ((edges[e].from == a && edges[e].to == b) || (edges[e].from
                    == b && edges[e].to == a));
            assert(graph.node_map().contains_key(a));
            assert(graph.spec_nodes().contains(a));
        }
    }
}

/// What a walk from a node leads to is a node.
proof fn lemma_reached_is_node<NodeId: Identifier, EdgeId: Identifier, ND, ED>(
    graph: &OwningGraph<NodeId, EdgeId, ND, ED>,
    start: NodeId,
    n: NodeId,
)
    requires
        graph.wf(),
        is_linked(graph.node_map(), graph.edge_map()),
        graph.node_map().contains_key(start),
        reaches(dfs_steps::<Undirected, OwningGraph<NodeId, EdgeId, ND, ED>>(graph), start, n),
    ensures
        graph.node_map().contains_key(n),
        graph.spec_nodes().contains(n),
{
    graph.lemma_members();
    let e = dfs_steps::<Undirected, OwningGraph<NodeId, EdgeId, ND, ED>>(graph);
    let p = choose|p: Seq<NodeId>| walk_between(e, p, start, n);
    if p.len() > 1 {
        let x = p[p.len() - 2];
        assert(step_at(e, p, p.len() - 2));
        assert(e(x, n));
        lemma_undirected_steps(graph, x, n);
        let edges = graph.edge_map();
        let k = choose|k: EdgeId| #[trigger]
            edges.contains_key(k) && ((edges[k].from == x && edges[k].to == n) || (edges[k].from
                == n && edges[k].to == x));
        assert(edges.contains_key(k));
    }
    assert(graph.node_map().contains_key(n));
}

/// The nodes that can be reached in both directions, in the order of their indices.
pub open spec fn is_component<NodeId: Identifier, EdgeId, ED>(
    edges: Map<EdgeId, EdgeEntry<NodeId, ED>>,
    start: NodeId,
    list: Seq<NodeId>,
) -> bool {
    &&& forall|i: int, j: int|
        0 <= i < j < list.len() ==> (#[trigger] list[i]).spec_index() < (
        #[trigger] list[j]).spec_index()
    &&& forall|n: NodeId| #[trigger] list.contains(n) <==> reaches(links_of(edges), start, n)
}

/// The nodes that hang together with one of them.
pub open spec fn is_some_component<NodeId: Identifier, EdgeId, ED>(
    edges: Map<EdgeId, EdgeEntry<NodeId, ED>>,
    list: Seq<NodeId>,
) -> bool {
    exists|start: NodeId| #[trigger] is_component(edges, start, list)
}

/// The lists are the weakly connected components of a graph: each lists what hangs
/// together with one of its nodes, no two have a node in common, all nodes are listed and
/// nothing else, and the lists come in the order of their first nodes.
pub open spec fn are_components<NodeId: Identifier, EdgeId: Identifier, ND, ED>(
    graph: &OwningGraph<NodeId, EdgeId, ND, ED>,
    lists: Seq<Vec<NodeId>>,
) -> bool {
    &&& forall|c: int|
        0 <= c < lists.len() ==> is_some_component(graph.edge_map(), (#[trigger] lists[c])@)
    &&& forall|c: int, d: int, n: NodeId|
        0 <= c < d < lists.len() && #[trigger] lists[c]@.contains(n)
            ==> !#[trigger] lists[d]@.contains(n)
    &&& forall|n: NodeId| #[trigger]
        graph.node_map().contains_key(n) <==> in_some_list(lists, n)
    &&& forall|c: int| 0 <= c < lists.len() ==> (#[trigger] lists[c])@.len() > 0
    &&& forall|c: int, d: int|
        0 <= c < d < lists.len() ==> (#[trigger] lists[c])@[0].spec_index() < (
        #[trigger] lists[d])@[0].spec_index()
}

/// What hangs together with a node is a node.
proof fn lemma_linked_is_node<NodeId: Identifier, EdgeId: Identifier, ND, ED>(
    graph: &OwningGraph<NodeId, EdgeId, ND, ED>,
    start: NodeId,
    n: NodeId,
)
    requires
        is_linked(graph.node_map(), graph.edge_map()),
        graph.node_map().contains_key(start),
        reaches(links_of(graph.edge_map()), start, n),
    ensures
        graph.node_map().contains_key(n),
{
    let e = links_of(graph.edge_map());
    let p = choose|p: Seq<NodeId>| walk_between(e, p, start, n);
    if p.len() > 1 {
        assert(step_at(e, p, p.len() - 2));
        let edges = graph.edge_map();
        let k = choose|k: EdgeId| #[trigger]
            edges.contains_key(k) && ((edges[k].from == p[p.len() - 2] && edges[k].to == n) || (
            edges[k].from == n && edges[k].to == p[p.len() - 2]));
        assert(edges.contains_key(k));
    }
}

/// Collects what hangs together with `start`.
fn collect_component<NodeId: Identifier, EdgeId: Identifier, ND, ED>(
    graph: &OwningGraph<NodeId, EdgeId, ND, ED>,
    start: NodeId,
) -> (list: Vec<NodeId>)
    requires
        graph.wf(),
        is_linked(graph.node_map(), graph.edge_map()),
        graph.node_map().contains_key(start),
    ensures
        is_component(graph.edge_map(), start, list@),
        list@.no_duplicates(),
{
    proof {
        graph.lemma_members();
        graph.lemma_linked_is_navigable();
    }
    let ghost e = dfs_steps::<Undirected, OwningGraph<NodeId, EdgeId, ND, ED>>(graph);
    let mut walk = graph.undirected_dfs(start);
    let mut found: Vec<NodeId> = Vec::new();
    let mut more: bool = true;
    assert(found@ =~= walk.visited());
    let room = graph.node_ids();
    while more
        invariant
            graph.wf(),
            is_linked(graph.node_map(), graph.edge_map()),
            graph.node_map().contains_key(start),
            is_navigable(graph),
            room@ == graph.spec_nodes(),
            walk.wf(),
            walk.graph() == graph,
            walk.root() == start,
            e == dfs_steps::<Undirected, OwningGraph<NodeId, EdgeId, ND, ED>>(graph),
            found@ == walk.visited(),
            found@.no_duplicates(),
            found@.len() <= room@.len(),
            forall|i: int| 0 <= i < found@.len() ==> room@.contains(#[trigger] found@[i]),
            !more ==> forall|n: NodeId| #[trigger] found@.contains(n) <==> reaches(e, start, n),
        decreases room@.len() - found@.len() + if more {
            1int
        } else {
            0
        },
    {
        match walk.next() {
            Some((edge, node)) => {
                found.push(node);
                proof {
                    lemma_reached_is_node(graph, start, node);
                    lemma_sublist_length(found@, room@);
                }
            },
            None => {
                more = false;
            },
        }
    }
    let list = sort_ids(&found);
    proof {
        assert forall|n: NodeId| #[trigger] list@.contains(n) <==> reaches(
            links_of(graph.edge_map()),
            start,
            n,
        ) by {
            assert forall|x: NodeId, y: NodeId| #[trigger] e(x, y) == links_of(graph.edge_map())(x, y) by {
                lemma_undirected_steps(graph, x, y);
            }
            if reaches(e, start, n) {
                lemma_reaches_same(e, links_of(graph.edge_map()), start, n);
            }
            if reaches(links_of(graph.edge_map()), start, n) {
                assert forall|x: NodeId, y: NodeId| #[trigger] links_of(graph.edge_map())(x, y) implies e(x, y) by {
                    lemma_undirected_steps(graph, x, y);
                }
                lemma_reaches_same(links_of(graph.edge_map()), e, start, n);
            }
            assert(found@.contains(n) <==> reaches(e, start, n));
        }
        assert(list@.no_duplicates()) by {
            assert forall|i: int, j: int| 0 <= i < list@.len() && 0 <= j < list@.len() && i != j implies list@[i]
                != list@[j] by {
                if i < j {
                    assert(list@[i].spec_index() < list@[j].spec_index());
                } else {
                    assert(list@[j].spec_index() < list@[i].spec_index());
                }
            }
        }
    }
    list
}

/// The weakly connected components of a graph, by their first nodes.
#[verifier::rlimit(40)]
pub fn weakly_connected_components<NodeId: Identifier, EdgeId: Identifier, ND, ED>(
    graph: &OwningGraph<NodeId, EdgeId, ND, ED>,
) -> (lists: Vec<Vec<NodeId>>)
    requires
        graph.wf(),
        is_linked(graph.node_map(), graph.edge_map()),
    ensures
        are_components(graph, lists@),
{
    let ids = graph.node_ids();
    let ghost edges = graph.edge_map();
    let ghost step = links_of(edges);
    let ghost mut starts: Seq<NodeId> = Seq::empty();
    let mut lists: Vec<Vec<NodeId>> = Vec::new();
    let mut seen = crate::fx::set_new();
    proof {
        graph.lemma_members();
    }
    for i in 0..ids.len()
        invariant
            graph.wf(),
            is_linked(graph.node_map(), graph.edge_map()),
            edges == graph.edge_map(),
            step == links_of(edges),
            ids@ == graph.spec_nodes(),
            starts.len() == lists@.len(),
            forall|c: int|
                0 <= c < lists@.len() ==> is_component(
                    edges,
                    #[trigger] starts[c],
                    lists@[c]@,
                ),
            forall|n: NodeId|
                seen@.contains(#[trigger] n.spec_index()) <==> in_some_list(lists@, n),
            forall|k: int| 0 <= k < i ==> in_some_list(lists@, #[trigger] ids@[k]),
            forall|c: int|
                0 <= c < lists@.len() ==> (#[trigger] lists@[c])@.len() > 0 && lists@[c]@[0]
                    == starts[c] && graph.node_map().contains_key(starts[c]),
            forall|c: int, k: int|
                0 <= c < starts.len() && i <= k < ids@.len() ==> (#[trigger] starts[c]).spec_index()
                    < (#[trigger] ids@[k]).spec_index(),
            forall|c: int, d: int|
                0 <= c < d < starts.len() ==> (#[trigger] starts[c]).spec_index() < (
                #[trigger] starts[d]).spec_index(),
            forall|c: int, d: int, n: NodeId|
                0 <= c < d < lists@.len() && #[trigger] lists@[c]@.contains(n)
                    ==> !#[trigger] lists@[d]@.contains(n),
    {
        let start = ids[i];
        proof {
            graph.lemma_members();
            assert(graph.spec_nodes().contains(start));
        }
        if !crate::fx::set_contains(&seen, start.to_usize()) {
            let list = collect_component(graph, start);
            let ghost before = lists@;
            let ghost seen0 = seen@;
            for k in 0..list.len()
                invariant
                    forall|n: NodeId|
                        seen@.contains(#[trigger] n.spec_index()) <==> seen0.contains(
                            n.spec_index(),
                        ) || list@.take(k as int).contains(n),
            {
                let ghost seen1 = seen@;
                let id = list[k];
                crate::fx::set_insert(&mut seen, id.to_usize());
                proof {
                    assert forall|n: NodeId|
                        seen@.contains(#[trigger] n.spec_index()) <==> seen0.contains(
                            n.spec_index(),
                        ) || list@.take(k + 1).contains(n) by {
                        lemma_id_injective(n, id);
                        assert(seen1.contains(n.spec_index()) <==> seen0.contains(n.spec_index())
                            || list@.take(k as int).contains(n));
                        assert(list@.take(k + 1) =~= list@.take(k as int).push(id));
                        if list@.take(k as int).contains(n) {
                            let j = list@.take(k as int).index_of(n);
                            assert(list@.take(k + 1)[j] == n);
                        }
                        assert(list@.take(k + 1)[k as int] == id);
                        if list@.take(k + 1).contains(n) && n != id {
                            let j = list@.take(k + 1).index_of(n);
                            assert(list@.take(k as int)[j] == n);
                        }
                    }
                }
            }
            assert(list@.take(list@.len() as int) =~= list@);
            let ghost listed = list@;
            lists.push(list);
            proof {
                starts = starts.push(start);
                let last = before.len() as int;
                assert forall|x: NodeId, y: NodeId| #[trigger] step(x, y) implies step(y, x) by {
                    let e = choose|e: EdgeId| #[trigger]
                        edges.contains_key(e) && ((edges[e].from == x && edges[e].to == y) || (
                        edges[e].from == y && edges[e].to == x));
                    assert(edges.contains_key(e));
                }
                assert forall|c: int, d: int, n: NodeId|
                    0 <= c < d < lists@.len() && #[trigger] lists@[c]@.contains(n) implies !#[trigger] lists@[d]@.contains(
                n) by {
                    if d < last {
                        assert(before[c]@.contains(n));
                        assert(!before[d]@.contains(n));
                    } else if lists@[d]@.contains(n) {
                        assert(before[c]@.contains(n));
                        assert(is_component(edges, starts[c], before[c]@));
                        assert(reaches(step, starts[c], n));
                        assert(reaches(step, start, n));
                        let p = choose|p: Seq<NodeId>| walk_between(step, p, start, n);
                        lemma_reaches_back(step, p, p.len() - 1);
                        lemma_reaches_transitive(step, starts[c], n, start);
                        assert(before[c]@.contains(start));
                        assert(in_some_list(before, start));
                        assert(false);
                    }
                }
                assert forall|n: NodeId|
                    seen@.contains(#[trigger] n.spec_index()) <==> in_some_list(lists@, n) by {
                    assert(seen0.contains(n.spec_index()) <==> in_some_list(before, n));
                    if in_some_list(before, n) {
                        let c = choose|c: int|
                            0 <= c < before.len() && (#[trigger] before[c])@.contains(n);
                        assert(lists@[c]@.contains(n));
                    }
                    if listed.contains(n) {
                        assert(lists@[last]@.contains(n));
                    }
                    if in_some_list(lists@, n) {
                        let c = choose|c: int|
                            0 <= c < lists@.len() && (#[trigger] lists@[c])@.contains(n);
                        if c < last {
                            assert(before[c]@.contains(n));
                        }
                    }
                }
                lemma_trivial_walk(step, start);
                assert(lists@[last]@.contains(start));
                let head = listed[0];
                assert(listed.contains(head));
                if head != start {
                    // An earlier node would have been listed before.
                    lemma_linked_is_node(graph, start, head);
                    lemma_id_injective(head, start);
                    let at = listed.index_of(start);
                    assert(listed[0].spec_index() < listed[at].spec_index());
                    assert(graph.spec_nodes().contains(head));
                    let k = ids@.index_of(head);
                    if k > i {
                        assert(ids@[i as int].spec_index() < ids@[k].spec_index());
                    }
                    assert(in_some_list(before, ids@[k]));
                    let c = choose|c: int|
                        0 <= c < before.len() && (#[trigger] before[c])@.contains(head);
                    assert(lists@[c]@.contains(head));
                    assert(!lists@[last]@.contains(head));
                }
                assert forall|c: int| 0 <= c < lists@.len() implies (#[trigger] lists@[c])@.len() > 0
                    && lists@[c]@[0] == starts[c] && graph.node_map().contains_key(starts[c]) by {
                    if c < last {
                        assert(before[c]@[0] == starts[c]);
                    }
                }
                assert forall|k: int| 0 <= k < i + 1 implies in_some_list(lists@, #[trigger] ids@[k]) by {
                    if k < i {
                        assert(in_some_list(before, ids@[k]));
                        let c = choose|c: int|
                            0 <= c < before.len() && (#[trigger] before[c])@.contains(ids@[k]);
                        assert(lists@[c]@.contains(ids@[k]));
                    }
                }
            }
        } else {
            assert(in_some_list(lists@, start));
        }
    }
    proof {
        assert forall|n: NodeId| in_some_list(lists@, n) implies #[trigger] graph.node_map().contains_key(n) by {
            let c = choose|c: int| 0 <= c < lists@.len() && (#[trigger] lists@[c])@.contains(n);
            assert(is_component(edges, starts[c], lists@[c]@));
            assert(lists@[c]@[0] == starts[c]);
            lemma_linked_is_node(graph, starts[c], n);
        }
        assert forall|c: int| 0 <= c < lists@.len() implies is_some_component(
            graph.edge_map(),
            (#[trigger] lists@[c])@,
        ) by {
            assert(is_component(edges, starts[c], lists@[c]@));
        }
        assert forall|n: NodeId| #[trigger] graph.node_map().contains_key(n) implies in_some_list(
            lists@,
            n,
        ) by {
            graph.lemma_members();
            assert(graph.spec_nodes().contains(n));
            let k = ids@.index_of(n);
            assert(in_some_list(lists@, ids@[k]));
        }
    }
    lists
}

pub open spec fn in_some_list<N>(lists: Seq<Vec<N>>, n: N) -> bool {
    exists|c: int| 0 <= c < lists.len() && (#[trigger] lists[c])@.contains(n)
}

// The working graph of a component.

pub open spec fn plain_node() -> NodeLayoutData {
    NodeLayoutData { rank: 0, order: 0, is_dummy: false, self_loops: 0 }
}

/// A layout of `n` nodes alone.
pub open spec fn bare_layout(n: nat) -> LayoutState
    decreases n,
{
    if n == 0 {
        LayoutState { nodes: Map::empty(), edges: Map::empty(), next_node: 0, next_edge: 0 }
    } else {
        bare_layout((n - 1) as nat).with_node(plain_node())
    }
}

/// The layout with one more loop at a node.
pub open spec fn with_loop(state: LayoutState, v: usize) -> LayoutState {
    let entry = state.nodes[v];
    LayoutState {
        nodes: state.nodes.insert(
            v,
            NodeEntry {
                edges: entry.edges,
                data: NodeLayoutData {
                    self_loops: (entry.data.self_loops + 1) as u32,
                    ..entry.data
                },
            },
        ),
        ..state
    }
}

/// The working layout of the first `k` edges of a component of `n` nodes. Loops are kept
/// out of it; they are counted at their nodes.
pub open spec fn component_layout(
    n: nat,
    edges: Seq<IEdge>,
    ports: Seq<(Option<usize>, Option<usize>)>,
    k: int,
) -> LayoutState
    decreases k,
{
    if k <= 0 {
        bare_layout(n)
    } else {
        let before = component_layout(n, edges, ports, k - 1);
        let edge = edges[k - 1];
        if edge.from == edge.to {
            with_loop(before, edge.from)
        } else {
            before.with_edge(
                edge.from,
                edge.to,
                EdgeLayoutData {
                    minlen: 1,
                    weight: 1,
                    reversed: false,
                    orig: (k - 1) as usize,
                    port_start: ports[k - 1].0,
                    port_end: ports[k - 1].1,
                },
            )
        }
    }
}

/// The loops among the first `k` edges, each with its node.
pub open spec fn loops_of(edges: Seq<IEdge>, k: int) -> Seq<(usize, usize)>
    decreases k,
{
    if k <= 0 {
        Seq::empty()
    } else {
        let before = loops_of(edges, k - 1);
        if edges[k - 1].from == edges[k - 1].to {
            before.push(((k - 1) as usize, edges[k - 1].from))
        } else {
            before
        }
    }
}

/// All edges have length and weight one.
pub open spec fn has_unit_edges(state: LayoutState) -> bool {
    forall|e: usize| #[trigger]
        state.edges.contains_key(e) ==> state.edges[e].data.minlen == 1
            && state.edges[e].data.weight == 1
}

/// Builds the working graph of a component of `n` nodes, and lists its loops in the order
/// of the edges.
#[verifier::rlimit(40)]
pub fn build_component(n: usize, edges: &Vec<IEdge>, ports: &Vec<(Option<usize>, Option<usize>)>) -> (res: (
    LayoutGraph,
    Vec<(usize, usize)>,
))
    requires
        ends_below(edges@, n as int),
        ports@.len() == edges@.len(),
        edges@.len() <= u32::MAX,
        edges@.len() < usize::MAX,
    ensures
        res.0.wf(),
        state_of(&res.0) == component_layout(n as nat, edges@, ports@, edges@.len() as int),
        state_of(&res.0).is_sound(),
        has_unit_edges(state_of(&res.0)),
        res.1@ == loops_of(edges@, edges@.len() as int),
        forall|v: usize| #[trigger] res.0.node_map().contains_key(v) <==> v < n,
{
    let mut graph: LayoutGraph = OwningGraph::default();
    proof {
        graph.lemma_unissued();
        assert(graph.node_map() =~= Map::empty());
        assert(graph.edge_map() =~= Map::empty());
    }
    for i in 0..n
        invariant
            graph.wf(),
            state_of(&graph) == bare_layout(i as nat),
            state_of(&graph).is_sound(),
            graph.next_node() == i,
            graph.next_edge() == 0,
            forall|v: usize| #[trigger] graph.node_map().contains_key(v) <==> v < i,
            forall|v: usize| #[trigger]
                graph.node_map().contains_key(v) ==> graph.node_map()[v].data.self_loops == 0,
            forall|e: usize| !#[trigger] graph.edge_map().contains_key(e),
    {
        let ghost before = graph;
        let data = NodeLayoutData { rank: 0, order: 0, is_dummy: false, self_loops: 0 };
        proof {
            law_make_node_keeps_links(graph.node_map(), graph.edge_map(), i, data);
        }
        graph.make_node(data);
        proof {
            assert forall|v: usize| #[trigger] graph.node_map().contains_key(v) <==> v < i + 1 by {
                assert(before.node_map().contains_key(v) <==> v < i);
            }
        }
    }
    let mut loops: Vec<(usize, usize)> = Vec::new();
    for k in 0..edges.len()
        invariant
            ends_below(edges@, n as int),
            ports@.len() == edges@.len(),
            edges@.len() <= u32::MAX,
            edges@.len() < usize::MAX,
            graph.wf(),
            state_of(&graph) == component_layout(n as nat, edges@, ports@, k as int),
            state_of(&graph).is_sound(),
            has_unit_edges(state_of(&graph)),
            graph.next_edge() <= k,
            loops@ == loops_of(edges@, k as int),
            forall|v: usize| #[trigger] graph.node_map().contains_key(v) <==> v < n,
            forall|v: usize| #[trigger]
                graph.node_map().contains_key(v) ==> graph.node_map()[v].data.self_loops <= k,
    {
        let (from, to): (usize, usize) = (edges[k].from, edges[k].to);
        let ghost before = state_of(&graph);
        proof {
            assert(edges@[k as int].from < n && edges@[k as int].to < n);
            assert(graph.node_map().contains_key(from) && graph.node_map().contains_key(to));
        }
        if from == to {
            {
                let mut node = graph.get_node_mut(from).unwrap();
                let data = node.data();
                data.self_loops = data.self_loops + 1;
            }
            loops.push((k, from));
            proof {
                let after = state_of(&graph);
                assert(after == with_loop(before, from));
                assert(is_linked(after.nodes, after.edges)) by {
                    assert forall|x: usize| #[trigger] before.nodes.contains_key(x) implies after.nodes[x].edges
                        == before.nodes[x].edges by {}
                    assert forall|x: usize, e: usize|
                        after.nodes.contains_key(x) && #[trigger] after.nodes[x].edges.contains(e) implies after.edges.contains_key(
                    e) && (after.edges[e].from == x || after.edges[e].to == x) by {
                        assert(before.nodes.contains_key(x));
                        assert(before.nodes[x].edges.contains(e));
                    }
                }
            }
        } else {
            let data = EdgeLayoutData {
                minlen: 1,
                weight: 1,
                reversed: false,
                orig: k,
                port_start: ports[k].0,
                port_end: ports[k].1,
            };
            proof {
                law_make_edge_keeps_links(
                    before.nodes,
                    before.edges,
                    before.next_edge as usize,
                    EdgeEntry { from, to, data },
                );
            }
            graph.make_edge(from, to, data);
            proof {
                let after = state_of(&graph);
                assert(after == before.with_edge(from, to, data));
                assert forall|v: usize| #[trigger] after.nodes.contains_key(v) <==> v < n by {
                    assert(before.nodes.contains_key(v) <==> v < n);
                }
            }
        }
    }
    (graph, loops)
}

// Gadgets keep a layout together.

proof fn lemma_one_step<N>(f: spec_fn(N, N) -> bool, a: N, b: N)
    requires
        f(a, b),
    ensures
        reaches(f, a, b),
{
    lemma_trivial_walk(f, a);
    lemma_extend(f, seq![a], a, a, b);
}

proof fn lemma_linked_step(edges: Map<usize, EdgeEntry<usize, EdgeLayoutData>>, e: usize)
    requires
        edges.contains_key(e),
    ensures
        reaches(neighbours_of(edges), edges[e].from, edges[e].to),
        reaches(neighbours_of(edges), edges[e].to, edges[e].from),
{
    assert(neighbours_of(edges)(edges[e].from, edges[e].to));
    assert(neighbours_of(edges)(edges[e].to, edges[e].from));
    lemma_one_step(neighbours_of(edges), edges[e].from, edges[e].to);
    lemma_one_step(neighbours_of(edges), edges[e].to, edges[e].from);
}

/// Replacing an edge by its gadget keeps a layout together.
pub proof fn law_gadget_keeps_together(state: LayoutState, id: usize)
    requires
        state.is_sound(),
        hangs_together(state),
        state.edges.contains_key(id),
        state.next_node + 2 <= usize::MAX,
        state.next_edge + 3 <= usize::MAX,
    ensures
        hangs_together(with_gadget(state, id)),
{
    let after = with_gadget(state, id);
    let edge = state.edges[id];
    let above = state.next_node as usize;
    let below = (state.next_node + 1) as usize;
    let x0 = state.next_edge as usize;
    let x1 = (state.next_edge + 1) as usize;
    let x2 = (state.next_edge + 2) as usize;
    let e = neighbours_of(state.edges);
    let f = neighbours_of(after.edges);
    assert(after.edges[x0].from == above && after.edges[x0].to == edge.to);
    assert(after.edges[x1].from == edge.from && after.edges[x1].to == below);
    assert(after.edges[x2].from == above && after.edges[x2].to == below);
    lemma_linked_step(after.edges, x0);
    lemma_linked_step(after.edges, x1);
    lemma_linked_step(after.edges, x2);
    lemma_reaches_transitive(f, edge.from, below, above);
    lemma_reaches_transitive(f, edge.from, above, edge.to);
    lemma_reaches_transitive(f, edge.to, above, below);
    lemma_reaches_transitive(f, edge.to, below, edge.from);
    assert forall|x: usize, y: usize| #[trigger] e(x, y) implies reaches(f, x, y) by {
        let k = choose|k: usize| #[trigger]
            state.edges.contains_key(k) && ((state.edges[k].from == x && state.edges[k].to == y)
                || (state.edges[k].from == y && state.edges[k].to == x));
        if k != id {
            assert(after.edges.contains_key(k) && after.edges[k] == state.edges[k]);
            lemma_linked_step(after.edges, k);
        }
    }
    assert forall|a: usize, b: usize|
        state.nodes.contains_key(a) && state.nodes.contains_key(b) implies #[trigger] reaches(
        f,
        a,
        b,
    ) by {
        assert(reaches(e, a, b));
        let p = choose|p: Seq<usize>| walk_between(e, p, a, b);
        lemma_reaches_refined(e, f, p, p.len() - 1);
    }
    assert(state.nodes.contains_key(edge.from) && state.nodes.contains_key(edge.to));
    assert forall|a: usize, b: usize|
        after.nodes.contains_key(a) && after.nodes.contains_key(b) implies #[trigger] reaches(
        f,
        a,
        b,
    ) by {
        let p = if a == above {
            edge.to
        } else if a == below {
            edge.from
        } else {
            a
        };
        let q = if b == above {
            edge.to
        } else if b == below {
            edge.from
        } else {
            b
        };
        lemma_trivial_walk(f, a);
        lemma_trivial_walk(f, b);
        assert(state.nodes.contains_key(p) && state.nodes.contains_key(q));
        assert(reaches(f, a, p));
        assert(reaches(f, p, q));
        assert(reaches(f, q, b));
        lemma_reaches_transitive(f, a, p, q);
        lemma_reaches_transitive(f, a, q, b);
    }
}

/// What replacing edges by their gadgets keeps.
proof fn lemma_gadgets(state: LayoutState, back: Seq<usize>)
    requires
        state.is_sound(),
        has_unit_edges(state),
        back.no_duplicates(),
        forall|i: int| 0 <= i < back.len() ==> state.edges.contains_key(#[trigger] back[i]),
        state.next_node + 2 * back.len() + 2 <= usize::MAX,
        state.next_edge + 3 * back.len() + 3 <= usize::MAX,
    ensures
        ({
            let after = with_gadgets(state, back);
            &&& after.is_sound()
            &&& has_unit_edges(after)
            &&& after.next_node == state.next_node + 2 * back.len()
            &&& after.next_edge == state.next_edge + 3 * back.len()
            &&& hangs_together(state) ==> hangs_together(after)
            &&& forall|e: usize| #[trigger]
                state.edges.contains_key(e) && !back.contains(e) ==> after.edges.contains_key(e)
                    && after.edges[e] == state.edges[e]
        }),
    decreases back.len(),
{
    if back.len() > 0 {
        let shorter = back.drop_last();
        let id = back.last();
        let mid = with_gadgets(state, shorter);
        assert forall|i: int| 0 <= i < shorter.len() implies state.edges.contains_key(
            #[trigger] shorter[i],
        ) by {
            assert(state.edges.contains_key(back[i]));
        }
        lemma_gadgets(state, shorter);
        assert(!shorter.contains(id)) by {
            if shorter.contains(id) {
                let i = shorter.index_of(id);
                assert(back[i] == back[back.len() - 1]);
            }
        }
        assert(state.edges.contains_key(back[back.len() - 1]));
        assert(mid.edges.contains_key(id));
        crate::triskel::cycle::lemma_gadget_sound(mid, id);
        if hangs_together(mid) {
            law_gadget_keeps_together(mid, id);
        }
        let after = with_gadgets(state, back);
        assert forall|e: usize| #[trigger]
            state.edges.contains_key(e) && !back.contains(e) implies after.edges.contains_key(e)
            && after.edges[e] == state.edges[e] by {
            assert(!shorter.contains(e)) by {
                if shorter.contains(e) {
                    assert(back[shorter.index_of(e)] == e);
                }
            }
            assert(e != id) by {
                assert(back[back.len() - 1] == id);
            }
            assert(mid.edges.contains_key(e));
        }
    }
}

// Phases.

/// Nodes and edges are so few that the numbers of the phases are machine integers.
pub open spec fn is_small(nodes: nat, edges: nat) -> bool {
    let n = nodes + 2 * edges;
    let m = 4 * edges;
    &&& n * m + 128 <= usize::MAX
    &&& n + 3 * m + 8 <= usize::MAX
    &&& 4 * m <= usize::MAX
    &&& n <= 0x0800_0000_0000_0000
}

/// A layout with its segments and the order within its ranks.
pub struct Arrangement {
    pub segments: SegmentInfo,
    pub rows: RowOrder,
}

/// What the phases of a layout make of the contents of its graph: cycles are broken, ranks
/// are assigned, and long edges are split.
pub open spec fn is_ranked(before: LayoutState, root: usize, ranked: LayoutState) -> bool {
    &&& only_ranks_differ(with_gadgets(before, found_back(before, root)), ranked)
    &&& is_acyclic(ranked.edges)
    &&& ranks_fit(ranked)
    &&& ranks_start_at_zero(ranked)
    &&& is_simplex_layout(ranked)
}

/// What is laid out after long edges have been split.
pub open spec fn is_split(ranked: LayoutState, ids: Seq<usize>, s: Segmented) -> bool {
    &&& s == with_short_edges(
        Segmented { state: ranked, pvertices: Set::empty(), qvertices: Set::empty() },
        ids,
    )
    &&& is_segmented(s)
    &&& is_paired(s)
}

/// The rows were ordered in the layout `s`, and `after` is the layout with the places of its
/// nodes in the rows.
pub open spec fn is_ordered(
    s: Segmented,
    root: usize,
    sweeps: int,
    rows: RowOrder,
    after: LayoutState,
) -> bool {
    exists|ids: Seq<usize>|
        {
            let best = crate::triskel::order::best_orders(s, ids, root, sweeps);
            let found = crate::triskel::order::final_rows(s, ids, best);
            &&& #[trigger] lists_nodes(s.state, ids)
            &&& crate::triskel::lanes::rows_of(rows.layers@) == found
            &&& rows.slots@.len() == found.len()
            &&& has_orders(
                s.state,
                after,
                crate::triskel::order::slotted(
                    wiring(s, room(ids)),
                    found,
                    best,
                    found.len() - 1,
                ).orders,
            )
            &&& forall|r: int|
                0 <= r < found.len() ==> crate::triskel::sweep::fills(
                    wiring(s, room(ids)),
                    found,
                    crate::triskel::order::levels(s.state, room(ids)),
                    r,
                    (#[trigger] rows.slots@[r])@,
                ) && rows.slots@[r]@ == crate::triskel::lanes::flat(
                    crate::triskel::order::slotted(wiring(s, room(ids)), found, best, r).row,
                )
        }
}

/// The ranks, or the crossings, would be too large for machine integers.
pub open spec fn is_too_large(before: LayoutState, root: usize) -> bool {
    exists|ranked: LayoutState| #[trigger]
        is_ranked(before, root, ranked) && (!ranks_bounded(ranked) || exists|
            ids: Seq<usize>,
            s: Segmented,
            nodes: Seq<usize>,
        |
            {
                &&& #[trigger] lists_edges(ranked, ids)
                &&& #[trigger] is_split(ranked, ids, s)
                &&& #[trigger] lists_nodes(s.state, nodes)
                &&& !crate::triskel::sweep::fits(
                    wiring(s, room(nodes)),
                    height_of(s.state, nodes),
                )
            })
}

/// Whether all ranks are small enough for layers.
fn has_bounded_ranks(graph: &LayoutGraph) -> (b: bool)
    requires
        graph.wf(),
        ranks_start_at_zero(state_of(graph)),
    ensures
        b == ranks_bounded(state_of(graph)),
{
    let ids = graph.node_ids();
    proof {
        graph.lemma_members();
    }
    for i in 0..ids.len()
        invariant
            graph.wf(),
            ids@ == graph.spec_nodes(),
            ranks_start_at_zero(state_of(graph)),
            forall|k: int|
                0 <= k < i ==> graph.node_map()[#[trigger] ids@[k]].data.rank < usize::MAX,
    {
        proof {
            graph.lemma_members();
            assert(graph.spec_nodes().contains(ids@[i as int]));
            assert(state_of(graph).nodes.contains_key(ids@[i as int]));
        }
        let rank: i64 = graph.get_node(ids[i]).unwrap().data().rank;
        if rank as u64 >= usize::MAX as u64 {
            return false;
        }
    }
    proof {
        graph.lemma_members();
        assert forall|n: usize| #[trigger] state_of(graph).nodes.contains_key(n) implies state_of(
            graph,
        ).nodes[n].data.rank <= 0x2000_0000_0000_0000 && state_of(graph).nodes[n].data.rank
            < usize::MAX by {
            assert(graph.spec_nodes().contains(n));
            assert(ids@[ids@.index_of(n)] == n);
        }
    }
    true
}

/// Runs the phases of a layout up to the order within ranks: breaks cycles, assigns ranks,
/// splits long edges, and orders the rows. Gives nothing if the layout is too large.
#[verifier::rlimit(60)]
#[verifier::spinoff_prover]
pub fn arrange(graph: &mut LayoutGraph, root: usize, max_sweeps: usize) -> (res: Option<Arrangement>)
    requires
        old(graph).wf(),
        state_of(old(graph)).is_sound(),
        has_unit_edges(state_of(old(graph))),
        old(graph).node_map().contains_key(root),
        hangs_together(state_of(old(graph))) || forall|e: usize| !#[trigger] old(
            graph,
        ).edge_map().contains_key(e),
        is_small(old(graph).next_node(), old(graph).next_edge()),
    ensures
        final(graph).wf(),
        res is Some ==> state_of(final(graph)).is_sound() && ranks_bounded(state_of(final(graph))),
        match res {
            Some(a) => exists|ranked: LayoutState, ids: Seq<usize>, s: Segmented|
                {
                    &&& #[trigger] is_ranked(state_of(old(graph)), root, ranked)
                    &&& #[trigger] lists_edges(ranked, ids)
                    &&& #[trigger] is_split(ranked, ids, s)
                    &&& s.pvertices == a.segments.pvertices@
                    &&& s.qvertices == a.segments.qvertices@
                    &&& is_ordered(
                        s,
                        root,
                        if max_sweeps == 0 {
                            1
                        } else {
                            max_sweeps as int
                        },
                        a.rows,
                        state_of(final(graph)),
                    )
                    &&& is_slotting(
                        Segmented { state: state_of(final(graph)), ..s },
                        slot_rows(a.rows.slots@),
                    )
                },
            None => is_too_large(state_of(old(graph)), root),
        },
{
    let ghost s0 = state_of(graph);
    let ghost (n0, m0) = (s0.next_node, s0.next_edge);
    break_cycles(graph, root);
    let ghost s1 = state_of(graph);
    let ghost back = found_back(s0, root);
    proof {
        assert forall|i: int| 0 <= i < back.len() implies s0.edges.contains_key(
            #[trigger] back[i],
        ) by {
            assert(back.contains(back[i]));
        }
        let ids = back.map_values(|e: usize| e as int);
        assert forall|i: int| 0 <= i < ids.len() implies 0 <= #[trigger] ids[i] < m0 by {
            assert(s0.edges.contains_key(back[i]));
        }
        crate::counting::lemma_distinct_in_range(ids, 0, m0 as int);
        lemma_gadgets(s0, back);
        if forall|e: usize| !#[trigger] s0.edges.contains_key(e) {
            if back.len() > 0 {
                assert(s0.edges.contains_key(back[0]));
            }
            assert(s1 == s0);
        }
        let (n, m) = ((n0 + 2 * m0) as int, (4 * m0) as int);
        assert(s1.next_node * s1.next_edge <= n * m) by (nonlinear_arith)
            requires
                0 <= s1.next_node <= n,
                0 <= s1.next_edge <= m,
        ;
        assert(has_small_numbers(s1)) by {
            assert forall|e: usize| #[trigger] s1.edges.contains_key(e) implies s1.next_node
                * s1.edges[e].data.minlen <= 0x0800_0000_0000_0000 && s1.next_edge
                * s1.edges[e].data.weight <= 0x7fff_ffff_ffff_ffff by {
                assert(s1.edges[e].data.minlen == 1 && s1.edges[e].data.weight == 1);
            }
        }
        assert(s1.nodes.contains_key(root)) by {
            lemma_gadgets_keep_nodes(s0, back, root);
        }
    }
    assign_ranks(graph);
    let ghost s2 = state_of(graph);
    proof {
        lemma_ranks_keep_sound(s1, s2);
        assert(is_ranked(s0, root, s2));
    }
    if !has_bounded_ranks(graph) {
        return None;
    }
    let ghost ids = graph.spec_edges();
    proof {
        graph.lemma_members();
        assert(lists_edges(s2, ids)) by {
            assert forall|i: int, j: int| 0 <= i < j < ids.len() implies #[trigger] ids[i]
                < #[trigger] ids[j] by {
                assert(ids[i].spec_index() < ids[j].spec_index());
            }
        }
    }
    let segments = build_segments(graph);
    let ghost s = Segmented {
        state: state_of(graph),
        pvertices: segments.pvertices@,
        qvertices: segments.qvertices@,
    };
    let ghost nodes = graph.spec_nodes();
    proof {
        assert(is_split(s2, ids, s));
        graph.lemma_members();
        lemma_short_edges_keep_nodes(
            Segmented { state: s2, pvertices: Set::empty(), qvertices: Set::empty() },
            ids,
            root,
        );
        assert(graph.node_map().contains_key(root));
        assert(nodes.contains(root));
        assert(nodes.contains(nodes.last()));
        assert(lists_nodes(s.state, nodes)) by {
            assert forall|i: int, j: int| 0 <= i < j < nodes.len() implies #[trigger] nodes[i]
                < #[trigger] nodes[j] by {
                assert(nodes[i].spec_index() < nodes[j].spec_index());
            }
        }
        assert(s.state.nodes.contains_key(nodes.last()));
    }
    if !can_be_ordered(graph, &segments) {
        return None;
    }
    let rows = order(graph, &segments, root, max_sweeps);
    proof {
        let sweeps = if max_sweeps == 0 {
            1
        } else {
            max_sweeps as int
        };
        let best = crate::triskel::order::best_orders(s, nodes, root, sweeps);
        let found = crate::triskel::order::final_rows(s, nodes, best);
        let slots = slot_rows(rows.slots@);
        assert forall|i: int| 0 <= i < nodes.len() implies #[trigger] nodes[i] < room(nodes) by {
            if i < nodes.len() - 1 {
                assert(nodes[i].spec_index() < nodes[nodes.len() - 1].spec_index());
            }
        }
        assert forall|v: usize| #[trigger] nodes.contains(v) <==> s.state.nodes.contains_key(v) by {}
        assert forall|r: int| 0 <= r < slots.len() implies crate::triskel::sweep::fills(
            wiring(s, room(nodes)),
            found,
            crate::triskel::order::levels(s.state, room(nodes)),
            r,
            #[trigger] slots[r],
        ) by {
            assert(slots[r] == rows.slots@[r]@);
        }
        law_slots_hold_the_layout(s, nodes, best, slots);
        let end = crate::triskel::order::slotted(
            wiring(s, room(nodes)),
            found,
            best,
            found.len() - 1,
        );
        lemma_orders_keep_slotting(s, state_of(graph), end.orders, slots);
        lemma_orders_keep_sound(s.state, state_of(graph), end.orders);
        assert(is_ordered(
            s,
            root,
            if max_sweeps == 0 {
                1
            } else {
                max_sweeps as int
            },
            rows,
            state_of(graph),
        ));
    }
    Some(Arrangement { segments, rows })
}

proof fn lemma_gadgets_keep_nodes(state: LayoutState, back: Seq<usize>, v: usize)
    requires
        state.nodes.contains_key(v),
    ensures
        with_gadgets(state, back).nodes.contains_key(v),
    decreases back.len(),
{
    if back.len() > 0 {
        lemma_gadgets_keep_nodes(state, back.drop_last(), v);
    }
}

proof fn lemma_ranks_keep_sound(before: LayoutState, after: LayoutState)
    requires
        before.is_sound(),
        only_ranks_differ(before, after),
    ensures
        after.is_sound(),
{
    assert forall|n: usize, e: usize|
        after.nodes.contains_key(n) && #[trigger] after.nodes[n].edges.contains(e) implies after.edges.contains_key(
    e) && (after.edges[e].from == n || after.edges[e].to == n) by {
        assert(before.nodes.contains_key(n));
        assert(before.nodes[n].edges.contains(e));
    }
    assert forall|e: usize| #[trigger] after.edges.contains_key(e) implies {
        &&& after.nodes.contains_key(after.edges[e].from)
        &&& after.nodes.contains_key(after.edges[e].to)
        &&& after.nodes[after.edges[e].from].edges.contains(e)
        &&& after.nodes[after.edges[e].to].edges.contains(e)
    } by {
        assert(before.edges.contains_key(e));
        assert(before.nodes.contains_key(before.edges[e].from));
        assert(before.nodes.contains_key(before.edges[e].to));
    }
    assert forall|n: usize| #[trigger] after.nodes.contains_key(n) implies n < after.next_node
        && after.nodes[n].edges.no_duplicates() by {
        assert(before.nodes.contains_key(n));
    }
}

proof fn lemma_orders_keep_sound(before: LayoutState, after: LayoutState, orders: Seq<usize>)
    requires
        before.is_sound(),
        ranks_bounded(before),
        has_orders(before, after, orders),
    ensures
        after.is_sound(),
        ranks_bounded(after),
{
    assert forall|n: usize| #[trigger] after.nodes.contains_key(n) implies before.nodes.contains_key(
        n,
    ) by {
        assert(after.nodes.dom().contains(n));
    }
    assert forall|n: usize, e: usize|
        after.nodes.contains_key(n) && #[trigger] after.nodes[n].edges.contains(e) implies after.edges.contains_key(
    e) && (after.edges[e].from == n || after.edges[e].to == n) by {
        assert(before.nodes.contains_key(n));
        assert(before.nodes[n].edges.contains(e));
    }
    assert forall|e: usize| #[trigger] after.edges.contains_key(e) implies {
        &&& after.nodes.contains_key(after.edges[e].from)
        &&& after.nodes.contains_key(after.edges[e].to)
        &&& after.nodes[after.edges[e].from].edges.contains(e)
        &&& after.nodes[after.edges[e].to].edges.contains(e)
    } by {
        assert(before.edges.contains_key(e));
        assert(before.nodes.contains_key(before.edges[e].from));
        assert(before.nodes.contains_key(before.edges[e].to));
    }
    assert forall|n: usize| #[trigger] after.nodes.contains_key(n) implies n < after.next_node
        && after.nodes[n].edges.no_duplicates() by {
        assert(before.nodes.contains_key(n));
    }
}

proof fn lemma_short_edges_keep_nodes(s: Segmented, list: Seq<usize>, v: usize)
    requires
        s.state.nodes.contains_key(v),
    ensures
        with_short_edges(s, list).state.nodes.contains_key(v),
    decreases list.len(),
{
    if list.len() > 0 {
        lemma_short_edges_keep_nodes(s, list.drop_last(), v);
    }
}

/// Whether any node can be reached from any other over edges in either direction.
pub fn is_connected(graph: &LayoutGraph) -> (b: bool)
    requires
        graph.wf(),
        state_of(graph).is_sound(),
    ensures
        b == hangs_together(state_of(graph)),
{
    let ids = graph.node_ids();
    let ghost state = state_of(graph);
    let ghost step = links_of(state.edges);
    let ghost near = neighbours_of(state.edges);
    proof {
        graph.lemma_members();
    }
    if ids.len() == 0 {
        proof {
            assert forall|a: usize, b: usize|
                state.nodes.contains_key(a) && state.nodes.contains_key(b) implies #[trigger] reaches(
                near,
                a,
                b,
            ) by {
                assert(graph.spec_nodes().contains(a));
            }
        }
        return true;
    }
    let start: usize = ids[0];
    assert(graph.spec_nodes().contains(start));
    let list = collect_component(graph, start);
    proof {
        assert forall|x: usize, y: usize| #[trigger] step(x, y) implies near(x, y) && step(y, x) by {
            let e = choose|e: usize| #[trigger]
                state.edges.contains_key(e) && ((state.edges[e].from == x && state.edges[e].to == y)
                    || (state.edges[e].from == y && state.edges[e].to == x));
            assert(state.edges.contains_key(e));
        }
        assert forall|x: usize, y: usize| #[trigger] near(x, y) implies step(x, y) by {
            let e = choose|e: usize| #[trigger]
                state.edges.contains_key(e) && ((state.edges[e].from == x && state.edges[e].to == y)
                    || (state.edges[e].from == y && state.edges[e].to == x));
            assert(state.edges.contains_key(e));
        }
        assert forall|i: int| 0 <= i < list@.len() implies ids@.contains(#[trigger] list@[i]) by {
            assert(list@.contains(list@[i]));
            assert forall|x: usize, y: usize| #[trigger] step(x, y) implies dfs_steps::<
                Undirected,
                LayoutGraph,
            >(graph)(x, y) by {
                lemma_undirected_steps(graph, x, y);
            }
            lemma_reaches_same(
                step,
                dfs_steps::<Undirected, LayoutGraph>(graph),
                start,
                list@[i],
            );
            lemma_linked_is_node(graph, start, list@[i]);
        }
        lemma_sublist_length(list@, ids@);
        if list@.len() == ids@.len() {
            assert forall|a: usize| #[trigger] ids@.contains(a) implies list@.contains(a) by {
                if !list@.contains(a) {
                    lemma_sublist_length(list@.push(a), ids@);
                }
            }
            assert forall|a: usize, b: usize|
                state.nodes.contains_key(a) && state.nodes.contains_key(b) implies #[trigger] reaches(
                near,
                a,
                b,
            ) by {
                assert(ids@.contains(a) && ids@.contains(b));
                assert(reaches(step, start, a) && reaches(step, start, b));
                let p = choose|p: Seq<usize>| walk_between(step, p, start, a);
                lemma_reaches_back(step, p, p.len() - 1);
                lemma_reaches_transitive(step, a, start, b);
                lemma_reaches_same(step, near, a, b);
            }
        } else if hangs_together(state) {
            assert forall|i: int| 0 <= i < ids@.len() implies list@.contains(#[trigger] ids@[i]) by {
                assert(graph.spec_nodes().contains(ids@[i]));
                assert(reaches(near, start, ids@[i]));
                lemma_reaches_same(near, step, start, ids@[i]);
            }
            lemma_sublist_length(ids@, list@);
        }
    }
    list.len() == ids.len()
}

/// Whether nodes and edges are few enough to be arranged.
pub fn is_small_enough(nodes: usize, edges: usize) -> (b: bool)
    ensures
        b == is_small(nodes as nat, edges as nat),
{
    let n: u128 = nodes as u128 + 2 * edges as u128;
    let m: u128 = 4 * edges as u128;
    if n > 0x0800_0000_0000_0000 || 4 * m > usize::MAX as u128 {
        return false;
    }
    assert(n * m <= 0x0800_0000_0000_0000 * 0x4000_0000_0000_0000) by (nonlinear_arith)
        requires
            0 <= n <= 0x0800_0000_0000_0000,
            0 <= m <= 0x4000_0000_0000_0000,
    ;
    n * m + 128 <= usize::MAX as u128 && n + 3 * m + 8 <= usize::MAX as u128
}

} // verus!
