//! What the edits of a graph keep: the incident edges and the ends of edges fit together.
use crate::graph::owning::{
    drop_edges, enlist, is_linked, lemma_drop_edges, unlist, EdgeEntry, NodeEntry,
};
use crate::graph::{lemma_with_id, lemma_without_id};
use vstd::prelude::*;

verus! {

/// A new node, which no edge touches, keeps a graph linked.
pub proof fn law_make_node_keeps_links<NodeId, EdgeId, NodeData, EdgeData>(
    nodes: Map<NodeId, NodeEntry<EdgeId, NodeData>>,
    edges: Map<EdgeId, EdgeEntry<NodeId, EdgeData>>,
    id: NodeId,
    data: NodeData,
)
    requires
        is_linked(nodes, edges),
        !nodes.contains_key(id),
    ensures
        is_linked(nodes.insert(id, NodeEntry { edges: Seq::empty(), data }), edges),
{
    let after = nodes.insert(id, NodeEntry { edges: Seq::<EdgeId>::empty(), data });
    assert forall|n: NodeId, e: EdgeId|
        after.contains_key(n) && #[trigger] after[n].edges.contains(e) implies edges.contains_key(e)
        && (edges[e].from == n || edges[e].to == n) by {
        assert(nodes[n].edges.contains(e));
    }
}

/// A new edge between two nodes keeps a graph linked.
pub proof fn law_make_edge_keeps_links<NodeId, EdgeId, NodeData, EdgeData>(
    nodes: Map<NodeId, NodeEntry<EdgeId, NodeData>>,
    edges: Map<EdgeId, EdgeEntry<NodeId, EdgeData>>,
    id: EdgeId,
    entry: EdgeEntry<NodeId, EdgeData>,
)
    requires
        is_linked(nodes, edges),
        !edges.contains_key(id),
        nodes.contains_key(entry.from),
        nodes.contains_key(entry.to),
    ensures
        is_linked(enlist(enlist(nodes, entry.from, id), entry.to, id), edges.insert(id, entry)),
{
    lemma_attach(nodes, edges, id, entry);
}

proof fn lemma_attach<NodeId, EdgeId, NodeData, EdgeData>(
    nodes: Map<NodeId, NodeEntry<EdgeId, NodeData>>,
    edges: Map<EdgeId, EdgeEntry<NodeId, EdgeData>>,
    id: EdgeId,
    entry: EdgeEntry<NodeId, EdgeData>,
)
    requires
        is_linked(nodes, edges),
        !edges.contains_key(id),
        nodes.contains_key(entry.from),
        nodes.contains_key(entry.to),
    ensures
        is_linked(enlist(enlist(nodes, entry.from, id), entry.to, id), edges.insert(id, entry)),
{
    let mid = enlist(nodes, entry.from, id);
    let after = enlist(mid, entry.to, id);
    let all = edges.insert(id, entry);
    lemma_with_id(nodes[entry.from].edges, id);
    lemma_with_id(mid[entry.to].edges, id);
    assert forall|n: NodeId, e: EdgeId| nodes.contains_key(n) implies (
    #[trigger] after[n].edges.contains(e) <==> nodes[n].edges.contains(e) || (e == id && (n
        == entry.from || n == entry.to))) by {}
    assert forall|n: NodeId, e: EdgeId|
        after.contains_key(n) && #[trigger] after[n].edges.contains(e) implies all.contains_key(e)
        && (all[e].from == n || all[e].to == n) by {
        if e != id {
            assert(nodes[n].edges.contains(e));
        }
    }
    assert forall|e: EdgeId| #[trigger] all.contains_key(e) implies {
        &&& after.contains_key(all[e].from)
        &&& after.contains_key(all[e].to)
        &&& after[all[e].from].edges.contains(e)
        &&& after[all[e].to].edges.contains(e)
    } by {
        if e != id {
            assert(edges.contains_key(e));
        }
    }
}

/// Without the edge `id`, and without its place in the lists of its ends, a graph stays
/// linked.
pub proof fn law_remove_edge_keeps_links<NodeId, EdgeId, NodeData, EdgeData>(
    nodes: Map<NodeId, NodeEntry<EdgeId, NodeData>>,
    edges: Map<EdgeId, EdgeEntry<NodeId, EdgeData>>,
    id: EdgeId,
)
    requires
        is_linked(nodes, edges),
        edges.contains_key(id),
    ensures
        is_linked(unlist(unlist(nodes, edges[id].from, id), edges[id].to, id), edges.remove(id)),
        forall|n: NodeId|
            nodes.contains_key(n) ==> !#[trigger] unlist(
                unlist(nodes, edges[id].from, id),
                edges[id].to,
                id,
            )[n].edges.contains(id),
{
    let (from, to) = (edges[id].from, edges[id].to);
    let mid = unlist(nodes, from, id);
    let after = unlist(mid, to, id);
    let rest = edges.remove(id);
    lemma_without_id(nodes[from].edges, id);
    lemma_without_id(mid[to].edges, id);
    assert forall|n: NodeId, e: EdgeId| nodes.contains_key(n) implies (
    #[trigger] after[n].edges.contains(e) <==> nodes[n].edges.contains(e) && e != id) by {
        if nodes[n].edges.contains(id) {
            assert(edges[id].from == n || edges[id].to == n);
        }
    }
    assert forall|n: NodeId, e: EdgeId|
        after.contains_key(n) && #[trigger] after[n].edges.contains(e) implies rest.contains_key(e)
        && (rest[e].from == n || rest[e].to == n) by {
        assert(nodes[n].edges.contains(e));
    }
    assert forall|e: EdgeId| #[trigger] rest.contains_key(e) implies {
        &&& after.contains_key(rest[e].from)
        &&& after.contains_key(rest[e].to)
        &&& after[rest[e].from].edges.contains(e)
        &&& after[rest[e].to].edges.contains(e)
    } by {
        assert(edges.contains_key(e));
    }
}

/// Moving the ends of an edge keeps a graph linked.
pub proof fn law_edit_edge_keeps_links<NodeId, EdgeId, NodeData, EdgeData>(
    nodes: Map<NodeId, NodeEntry<EdgeId, NodeData>>,
    edges: Map<EdgeId, EdgeEntry<NodeId, EdgeData>>,
    id: EdgeId,
    new_from: NodeId,
    new_to: NodeId,
)
    requires
        is_linked(nodes, edges),
        edges.contains_key(id),
        nodes.contains_key(new_from),
        nodes.contains_key(new_to),
    ensures
        is_linked(
            enlist(
                enlist(
                    unlist(unlist(nodes, edges[id].from, id), edges[id].to, id),
                    new_from,
                    id,
                ),
                new_to,
                id,
            ),
            edges.insert(id, EdgeEntry { from: new_from, to: new_to, data: edges[id].data }),
        ),
{
    let entry = EdgeEntry { from: new_from, to: new_to, data: edges[id].data };
    law_remove_edge_keeps_links(nodes, edges, id);
    let mid = unlist(unlist(nodes, edges[id].from, id), edges[id].to, id);
    lemma_attach(mid, edges.remove(id), id, entry);
    assert(edges.remove(id).insert(id, entry) =~= edges.insert(id, entry));
}

/// Removing a node with all that it lists keeps a graph linked, and exactly the edges
/// that touch the node are gone.
pub proof fn law_remove_node_keeps_links<NodeId, EdgeId, NodeData, EdgeData>(
    nodes: Map<NodeId, NodeEntry<EdgeId, NodeData>>,
    edges: Map<EdgeId, EdgeEntry<NodeId, EdgeData>>,
    id: NodeId,
)
    requires
        is_linked(nodes, edges),
        nodes.contains_key(id),
    ensures
        is_linked(
            drop_edges(nodes, edges, nodes[id].edges).0.remove(id),
            drop_edges(nodes, edges, nodes[id].edges).1,
        ),
        forall|e: EdgeId| #[trigger]
            drop_edges(nodes, edges, nodes[id].edges).1.contains_key(e) <==> edges.contains_key(e)
                && edges[e].from != id && edges[e].to != id,
{
    let list = nodes[id].edges;
    assert forall|e: EdgeId| #[trigger] list.contains(e) implies edges.contains_key(e)
        && nodes.contains_key(edges[e].from) && nodes.contains_key(edges[e].to) by {
        assert(nodes[id].edges.contains(e));
    }
    lemma_drop_edges(nodes, edges, list);
    lemma_drop_keeps_links(nodes, edges, list);
    let (after_nodes, after_edges) = drop_edges(nodes, edges, list);
    assert forall|e: EdgeId| #[trigger] after_edges.contains_key(e) <==> edges.contains_key(e)
        && edges[e].from != id && edges[e].to != id by {
        if edges.contains_key(e) && list.contains(e) {
            assert(nodes[id].edges.contains(e));
        }
    }
    let rest = after_nodes.remove(id);
    assert forall|n: NodeId, e: EdgeId|
        rest.contains_key(n) && #[trigger] rest[n].edges.contains(e) implies after_edges.contains_key(
        e,
    ) && (after_edges[e].from == n || after_edges[e].to == n) by {
        assert(after_nodes[n].edges.contains(e));
    }
    assert forall|e: EdgeId| #[trigger] after_edges.contains_key(e) implies {
        &&& rest.contains_key(after_edges[e].from)
        &&& rest.contains_key(after_edges[e].to)
        &&& rest[after_edges[e].from].edges.contains(e)
        &&& rest[after_edges[e].to].edges.contains(e)
    } by {}
}

proof fn lemma_drop_keeps_links<NodeId, EdgeId, NodeData, EdgeData>(
    nodes: Map<NodeId, NodeEntry<EdgeId, NodeData>>,
    edges: Map<EdgeId, EdgeEntry<NodeId, EdgeData>>,
    list: Seq<EdgeId>,
)
    requires
        is_linked(nodes, edges),
        list.no_duplicates(),
        forall|e: EdgeId| #[trigger] list.contains(e) ==> edges.contains_key(e),
    ensures
        is_linked(drop_edges(nodes, edges, list).0, drop_edges(nodes, edges, list).1),
    decreases list.len(),
{
    if list.len() > 0 {
        let rest = list.drop_last();
        let id = list.last();
        assert forall|e: EdgeId| #[trigger] rest.contains(e) implies edges.contains_key(e)
            && nodes.contains_key(edges[e].from) && nodes.contains_key(edges[e].to) by {
            assert(list[rest.index_of(e)] == e);
            assert(list.contains(e));
        }
        lemma_drop_keeps_links(nodes, edges, rest);
        lemma_drop_edges(nodes, edges, rest);
        assert(list[list.len() - 1] == id);
        assert(list.contains(id));
        assert(!rest.contains(id)) by {
            if rest.contains(id) {
                assert(list[rest.index_of(id)] == id);
            }
        }
        let mid = drop_edges(nodes, edges, rest);
        assert(mid.1.contains_key(id));
        law_remove_edge_keeps_links(mid.0, mid.1, id);
    }
}

} // verus!
