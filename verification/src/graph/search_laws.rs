//! What holds of the steps of a depth-first walk, and of the lists that searches work on.
use crate::graph::analysis::sese::{exit_edges, inner_edges, is_dead_end, IEdge};
use crate::graph::node::{
    lemma_relations, relations, step_over, ChildMode, EdgeMode, ParentMode,
};
use crate::graph::{
    discoveries, lemma_leaving, lemma_without_id, lemma_without_ids, rehomed, still_pending,
    with_ids, without_id, without_ids, Graph,
};
use crate::registry::lemma_id_injective;
use crate::triskel::hammock::{edges_within, is_sink, sinks_below};
use vstd::prelude::*;

verus! {

/// What is passed over from the end of the pending discoveries has been visited; the one that
/// is then last has not.
pub proof fn law_visited_nodes_are_passed_over<E, N>(pending: Seq<(Option<E>, N)>, visited: Seq<N>)
    ensures
        ({
            let ready = still_pending(pending, visited);
            &&& ready.is_prefix_of(pending)
            &&& ready.len() > 0 ==> !visited.contains(ready.last().1)
            &&& forall|i: int|
                ready.len() <= i < pending.len() ==> visited.contains((#[trigger] pending[i]).1)
        }),
    decreases pending.len(),
{
    if pending.len() > 0 && visited.contains(pending.last().1) {
        let front = pending.drop_last();
        law_visited_nodes_are_passed_over(front, visited);
        let ready = still_pending(pending, visited);
        assert(ready.is_prefix_of(pending)) by {
            assert(ready.is_prefix_of(front));
            assert(ready =~= pending.take(ready.len() as int)) by {
                assert(ready =~= front.take(ready.len() as int));
            }
        }
        assert forall|i: int| ready.len() <= i < pending.len() implies visited.contains(
            (#[trigger] pending[i]).1,
        ) by {
            if i < front.len() {
                assert(front[i] == pending[i]);
            }
        }
    } else {
        assert(pending =~= pending.take(pending.len() as int));
    }
}

/// The discoveries that a node leads to: one over each of its edges to a node not yet
/// visited, in the order of the edges.
pub proof fn law_discoveries_keep_the_order_of_edges<E, N>(items: Seq<(E, N)>, visited: Seq<N>) -> (
    places: Seq<int>)
    ensures
        ({
            let found = discoveries(items, visited);
            &&& places.len() == found.len()
            &&& forall|i: int, j: int|
                0 <= i < j < places.len() ==> #[trigger] places[i] < #[trigger] places[j]
            &&& forall|i: int|
                0 <= i < places.len() ==> 0 <= #[trigger] places[i] < items.len() && found[i] == (
                    Some(items[places[i]].0),
                    items[places[i]].1,
                ) && !visited.contains(items[places[i]].1)
            &&& forall|k: int|
                0 <= k < items.len() && !visited.contains((#[trigger] items[k]).1)
                    ==> places.contains(k)
        }),
    decreases items.len(),
{
    if items.len() == 0 {
        Seq::empty()
    } else {
        let front = items.drop_last();
        let before = law_discoveries_keep_the_order_of_edges(front, visited);
        let last = items.len() - 1;
        let places = if visited.contains(items.last().1) {
            before
        } else {
            before.push(last)
        };
        let found = discoveries(items, visited);
        let rest = discoveries(front, visited);
        assert forall|i: int| 0 <= i < places.len() implies 0 <= #[trigger] places[i] < items.len()
            && found[i] == (Some(items[places[i]].0), items[places[i]].1) && !visited.contains(
            items[places[i]].1,
        ) by {
            if i < before.len() {
                assert(places[i] == before[i]);
                assert(found[i] == rest[i]);
                assert(front[before[i]] == items[before[i]]);
            }
        }
        assert forall|i: int, j: int| 0 <= i < j < places.len() implies #[trigger] places[i]
            < #[trigger] places[j] by {
            assert(places[i] == before[i]);
            if j < before.len() {
                assert(places[j] == before[j]);
            }
        }
        assert forall|k: int| 0 <= k < items.len() && !visited.contains(
            (#[trigger] items[k]).1,
        ) implies places.contains(k) by {
            if k < last {
                assert(front[k] == items[k]);
                assert(places[before.index_of(k)] == k);
            } else {
                assert(places[before.len() as int] == k);
            }
        }
        places
    }
}

// Lists.

/// The edges between different nodes of a list: all of them, and no others.
pub proof fn law_inner_edges_join_the_nodes<G: Graph>(
    graph: &G,
    ids: Seq<G::NodeId>,
    list: Seq<G::EdgeId>,
)
    ensures
        forall|e: G::EdgeId| #[trigger]
            inner_edges(graph, ids, list).contains(e) <==> list.contains(e) && graph.spec_from(e)
                != graph.spec_to(e) && ids.contains(graph.spec_from(e)) && ids.contains(
                graph.spec_to(e),
            ),
    decreases list.len(),
{
    let all = inner_edges(graph, ids, list);
    if list.len() > 0 {
        let front = list.drop_last();
        law_inner_edges_join_the_nodes(graph, ids, front);
        let rest = inner_edges(graph, ids, front);
        assert forall|e: G::EdgeId| #[trigger] all.contains(e) <==> list.contains(e)
            && graph.spec_from(e) != graph.spec_to(e) && ids.contains(graph.spec_from(e))
            && ids.contains(graph.spec_to(e)) by {
            lemma_last(list, e);
            assert(rest.contains(e) <==> front.contains(e) && graph.spec_from(e) != graph.spec_to(e)
                && ids.contains(graph.spec_from(e)) && ids.contains(graph.spec_to(e)));
            if all.len() == rest.len() + 1 {
                lemma_last(all, e);
                assert(all.drop_last() =~= rest);
            }
        }
    }
}

/// The edges between nodes of a list, loops included: all of them, and no others.
pub proof fn law_edges_within_join_the_nodes<G: Graph>(
    graph: &G,
    ids: Seq<G::NodeId>,
    list: Seq<G::EdgeId>,
)
    ensures
        forall|e: G::EdgeId| #[trigger]
            edges_within(graph, ids, list).contains(e) <==> list.contains(e) && ids.contains(
                graph.spec_from(e),
            ) && ids.contains(graph.spec_to(e)),
    decreases list.len(),
{
    let all = edges_within(graph, ids, list);
    if list.len() > 0 {
        let front = list.drop_last();
        law_edges_within_join_the_nodes(graph, ids, front);
        let rest = edges_within(graph, ids, front);
        assert forall|e: G::EdgeId| #[trigger] all.contains(e) <==> list.contains(e)
            && ids.contains(graph.spec_from(e)) && ids.contains(graph.spec_to(e)) by {
            lemma_last(list, e);
            assert(rest.contains(e) <==> front.contains(e) && ids.contains(graph.spec_from(e))
                && ids.contains(graph.spec_to(e)));
            if all.len() == rest.len() + 1 {
                lemma_last(all, e);
                assert(all.drop_last() =~= rest);
            }
        }
    }
}

proof fn lemma_last<T>(list: Seq<T>, x: T)
    requires
        list.len() > 0,
    ensures
        list.contains(x) <==> list.drop_last().contains(x) || x == list.last(),
{
    let front = list.drop_last();
    if list.contains(x) {
        let i = list.index_of(x);
        if i < front.len() {
            assert(front[i] == x);
        }
    }
    if front.contains(x) {
        assert(list[front.index_of(x)] == x);
    }
    assert(list[list.len() - 1] == list.last());
}

/// Every dead end leads to the exit, and nothing else does.
pub proof fn law_dead_ends_lead_to_the_exit(edges: Seq<IEdge>, exit: usize, n: nat)
    requires
        n <= usize::MAX,
    ensures
        forall|e: IEdge| #[trigger]
            exit_edges(edges, exit, n).contains(e) <==> e.from < n && e.to == exit && is_dead_end(
                edges,
                e.from as int,
            ),
    decreases n,
{
    let all = exit_edges(edges, exit, n);
    if n > 0 {
        law_dead_ends_lead_to_the_exit(edges, exit, (n - 1) as nat);
        let rest = exit_edges(edges, exit, (n - 1) as nat);
        let last = IEdge { from: (n - 1) as usize, to: exit };
        assert forall|e: IEdge| #[trigger] all.contains(e) <==> e.from < n && e.to == exit
            && is_dead_end(edges, e.from as int) by {
            assert(rest.contains(e) <==> e.from < n - 1 && e.to == exit && is_dead_end(
                edges,
                e.from as int,
            ));
            if all.len() == rest.len() + 1 {
                lemma_last(all, e);
                assert(all.drop_last() =~= rest);
            }
        }
    }
}

/// The sinks are the nodes that no edge leaves for another, in their order.
pub proof fn law_sinks_are_listed(edges: Seq<IEdge>, n: nat)
    requires
        n <= usize::MAX,
    ensures
        forall|v: usize| #[trigger]
            sinks_below(edges, n).contains(v) <==> v < n && is_sink(edges, v as int),
        forall|i: int, j: int|
            0 <= i < j < sinks_below(edges, n).len() ==> #[trigger] sinks_below(edges, n)[i]
                < #[trigger] sinks_below(edges, n)[j],
    decreases n,
{
    let all = sinks_below(edges, n);
    if n > 0 {
        law_sinks_are_listed(edges, (n - 1) as nat);
        let rest = sinks_below(edges, (n - 1) as nat);
        assert forall|v: usize| #[trigger] all.contains(v) <==> v < n && is_sink(
            edges,
            v as int,
        ) by {
            assert(rest.contains(v) <==> v < n - 1 && is_sink(edges, v as int));
            if all.len() == rest.len() + 1 {
                lemma_last(all, v);
                assert(all.drop_last() =~= rest);
            }
        }
        assert forall|i: int, j: int| 0 <= i < j < all.len() implies #[trigger] all[i]
            < #[trigger] all[j] by {
            assert(all[i] == rest[i]);
            if j < rest.len() {
                assert(all[j] == rest[j]);
            } else {
                assert(rest.contains(rest[i]));
            }
        }
    }
}

// Relations.

/// An edge leads from its source to its target: the target is a child over it of the source
/// and of no other node, and the source a parent over it of the target and of no other.
pub proof fn law_children_and_parents_mirror<G: Graph>(
    graph: &G,
    e: G::EdgeId,
    a: G::NodeId,
    b: G::NodeId,
)
    ensures
        step_over::<ChildMode, G>(graph, a, e) == Some(b) <==> graph.spec_from(e) == a
            && graph.spec_to(e) == b,
        step_over::<ParentMode, G>(graph, b, e) == Some(a) <==> graph.spec_from(e) == a
            && graph.spec_to(e) == b,
        step_over::<ChildMode, G>(graph, a, e) == Some(b) <==> step_over::<ParentMode, G>(
            graph,
            b,
            e,
        ) == Some(a),
        graph.spec_from(e) == a ==> step_over::<EdgeMode, G>(graph, a, e) == Some(
            graph.spec_to(e),
        ),
        graph.spec_to(e) == b ==> step_over::<EdgeMode, G>(graph, b, e) == Some(
            graph.spec_from(e),
        ),
{
    lemma_id_injective(graph.spec_from(e), a);
    lemma_id_injective(graph.spec_to(e), b);
    lemma_id_injective(graph.spec_from(e), b);
}

/// The children of a node are the targets of its outgoing edges, and its parents the sources
/// of its incoming ones.
pub proof fn law_relations_follow_edges<G: Graph>(graph: &G, node: G::NodeId, list: Seq<G::EdgeId>)
    ensures
        forall|e: G::EdgeId, other: G::NodeId| #[trigger]
            relations::<ChildMode, G>(graph, node, list).contains((e, other)) <==> list.contains(e)
                && graph.spec_from(e) == node && graph.spec_to(e) == other,
        forall|e: G::EdgeId, other: G::NodeId| #[trigger]
            relations::<ParentMode, G>(graph, node, list).contains((e, other)) <==> list.contains(e)
                && graph.spec_to(e) == node && graph.spec_from(e) == other,
{
    lemma_relations::<ChildMode, G>(graph, node, list);
    lemma_relations::<ParentMode, G>(graph, node, list);
    assert forall|e: G::EdgeId, other: G::NodeId| #[trigger]
        relations::<ChildMode, G>(graph, node, list).contains((e, other)) <==> list.contains(e)
        && graph.spec_from(e) == node && graph.spec_to(e) == other by {
        law_children_and_parents_mirror(graph, e, node, other);
    }
    assert forall|e: G::EdgeId, other: G::NodeId| #[trigger]
        relations::<ParentMode, G>(graph, node, list).contains((e, other)) <==> list.contains(e)
        && graph.spec_to(e) == node && graph.spec_from(e) == other by {
        law_children_and_parents_mirror(graph, e, other, node);
    }
}

/// A merge takes the direct edge from both nodes, and moves the other outgoing edges of the
/// node that is removed, and no others, to the node that is kept.
pub proof fn law_merge_moves_outgoing_edges<G: Graph>(
    graph: &G,
    keep: Seq<G::EdgeId>,
    remove: G::NodeId,
    direct: G::EdgeId,
    e: G::EdgeId,
)
    requires
        keep.no_duplicates(),
        graph.spec_incident(remove).no_duplicates(),
    ensures
        ({
            let list = graph.spec_incident(remove);
            let moved = rehomed(graph, remove, direct);
            let goes = list.contains(e) && e != direct && graph.spec_from(e) == remove;
            &&& moved.contains(e) <==> goes
            &&& with_ids(without_id(keep, direct), moved).contains(e) <==> (keep.contains(e) && e
                != direct) || goes
            &&& without_ids(without_id(list, direct), moved).contains(e) <==> list.contains(e) && e
                != direct && graph.spec_from(e) != remove
        }),
{
    let list = graph.spec_incident(remove);
    let moved = rehomed(graph, remove, direct);
    lemma_without_id(keep, direct);
    lemma_without_id(list, direct);
    lemma_leaving(graph, remove, without_id(list, direct));
    lemma_with_ids(without_id(keep, direct), moved, e);
    lemma_without_ids(without_id(list, direct), moved);
}

proof fn lemma_with_ids<Id>(list: Seq<Id>, ids: Seq<Id>, x: Id)
    ensures
        with_ids(list, ids).contains(x) <==> list.contains(x) || ids.contains(x),
    decreases ids.len(),
{
    if ids.len() > 0 {
        let front = ids.drop_last();
        lemma_with_ids(list, front, x);
        lemma_last(ids, x);
        let before = with_ids(list, front);
        let after = with_ids(list, ids);
        if !before.contains(ids.last()) {
            lemma_last(after, x);
            assert(after.drop_last() =~= before);
        }
    }
}

} // verus!
