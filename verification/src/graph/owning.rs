//! A graph that owns its structure and payloads.
use crate::graph::edge::{Edge, EdgeMut};
use crate::graph::node::{Node, NodeMut};
use crate::graph::{
    is_navigable, lemma_with_id, lemma_without_id, with_id, without_id, Graph, GraphMut,
};
use crate::registry::{id_fits, lemma_id_injective, same_id, Identifier};
use vstd::prelude::*;

verus! {

/// What a graph stores of a node.
pub struct NodeEntry<EdgeId, NodeData> {
    pub edges: Seq<EdgeId>,
    pub data: NodeData,
}

/// What a graph stores of an edge.
pub struct EdgeEntry<NodeId, EdgeData> {
    pub from: NodeId,
    pub to: NodeId,
    pub data: EdgeData,
}

pub(crate) struct RawNode<EdgeId, NodeData> {
    pub edges: Vec<EdgeId>,
    pub data: NodeData,
}

pub(crate) struct RawEdge<NodeId, EdgeData> {
    pub from: NodeId,
    pub to: NodeId,
    pub data: EdgeData,
}

/// A graph with payloads on its nodes and edges.
///
/// Identifiers are handed out in increasing order and never reused; the slot of an
/// identifier holds the node or the edge until it is removed.
pub struct OwningGraph<NodeId: Identifier, EdgeId: Identifier, NodeData, EdgeData> {
    nodes: Vec<Option<RawNode<EdgeId, NodeData>>>,
    edges: Vec<Option<RawEdge<NodeId, EdgeData>>>,
}

/// The identifiers of the slots that are taken, in order.
spec fn taken<Id: Identifier, T>(slots: Seq<Option<T>>) -> Seq<Id>
    decreases slots.len(),
{
    if slots.len() == 0 {
        Seq::empty()
    } else {
        let rest = taken::<Id, T>(slots.drop_last());
        if slots.last() is Some {
            rest.push(Id::spec_from_index((slots.len() - 1) as usize))
        } else {
            rest
        }
    }
}

spec fn slots_fit<Id: Identifier, T>(slots: Seq<Option<T>>) -> bool {
    &&& slots.len() <= usize::MAX
    &&& forall|i: int|
        0 <= i < slots.len() && (#[trigger] slots[i]) is Some ==> id_fits::<Id>(i as usize)
}

proof fn lemma_taken<Id: Identifier, T>(slots: Seq<Option<T>>)
    requires
        slots_fit::<Id, T>(slots),
    ensures
        forall|id: Id| #[trigger]
            taken::<Id, T>(slots).contains(id) <==> id.spec_index() < slots.len()
                && slots[id.spec_index() as int] is Some,
        forall|i: int, j: int|
            0 <= i < j < taken::<Id, T>(slots).len() ==> (#[trigger] taken::<Id, T>(
                slots,
            )[i]).spec_index() < (#[trigger] taken::<Id, T>(slots)[j]).spec_index(),
        taken::<Id, T>(slots).no_duplicates(),
    decreases slots.len(),
{
    let all = taken::<Id, T>(slots);
    if slots.len() > 0 {
        let rest = taken::<Id, T>(slots.drop_last());
        let k = (slots.len() - 1) as usize;
        let last = Id::spec_from_index(k);
        assert(slots_fit::<Id, T>(slots.drop_last())) by {
            assert forall|i: int|
                0 <= i < slots.drop_last().len() && (
                #[trigger] slots.drop_last()[i]) is Some implies id_fits::<Id>(i as usize) by {
                assert(slots[i] is Some);
            }
        }
        lemma_taken::<Id, T>(slots.drop_last());
        assert forall|id: Id| #[trigger] all.contains(id) <==> id.spec_index() < slots.len()
            && slots[id.spec_index() as int] is Some by {
            if rest.contains(id) {
                assert(all[rest.index_of(id)] == id);
            }
            if slots.last() is Some {
                lemma_id_injective(id, last);
                if id == last {
                    assert(all[rest.len() as int] == id);
                }
                if all.contains(id) && id != last {
                    let i = all.index_of(id);
                    assert(rest[i] == id);
                }
            }
        }
        assert forall|i: int, j: int| 0 <= i < j < all.len() implies (#[trigger] all[i]).spec_index()
            < (#[trigger] all[j]).spec_index() by {
            assert(rest.contains(rest[i]) || i >= rest.len());
        }
    }
    assert forall|i: int, j: int|
        0 <= i < all.len() && 0 <= j < all.len() && i != j implies all[i] != all[j] by {
        if i < j {
            assert(all[i].spec_index() < all[j].spec_index());
        } else {
            assert(all[j].spec_index() < all[i].spec_index());
        }
    }
}

/// The identifiers of the slots that are taken.
fn taken_ids<Id: Identifier, T>(slots: &Vec<Option<T>>) -> (ids: Vec<Id>)
    ensures
        ids@ == taken::<Id, T>(slots@),
{
    let mut ids: Vec<Id> = Vec::new();
    for i in 0..slots.len()
        invariant
            ids@ == taken::<Id, T>(slots@.subrange(0, i as int)),
    {
        assert(slots@.subrange(0, i + 1).drop_last() =~= slots@.subrange(0, i as int));
        if slots[i].is_some() {
            ids.push(Id::from_usize(i));
        }
    }
    assert(slots@.subrange(0, slots@.len() as int) =~= slots@);
    ids
}

/// Adds `id` to a list of distinct identifiers.
fn insert_id<Id: Identifier>(list: &mut Vec<Id>, id: Id)
    ensures
        final(list)@ == with_id(old(list)@, id),
{
    for i in 0..list.len()
        invariant
            *list == *old(list),
            forall|k: int| 0 <= k < i ==> #[trigger] list@[k] != id,
    {
        if same_id(list[i], id) {
            return;
        }
    }
    list.push(id);
}

/// Takes `id` out of a list of distinct identifiers.
fn remove_id<Id: Identifier>(list: &mut Vec<Id>, id: Id)
    requires
        old(list)@.no_duplicates(),
    ensures
        final(list)@ == without_id(old(list)@, id),
{
    let n: usize = list.len();
    for i in 0..n
        invariant
            n == list@.len(),
            *list == *old(list),
            list@.no_duplicates(),
            forall|k: int| 0 <= k < i ==> #[trigger] list@[k] != id,
    {
        if same_id(list[i], id) {
            assert(list@.index_of(id) == i);
            list.remove(i);
            return;
        }
    }
}

impl<NodeId: Identifier, EdgeId: Identifier, NodeData, EdgeData> OwningGraph<
    NodeId,
    EdgeId,
    NodeData,
    EdgeData,
> {
    /// Identifiers survive the way through their slot, and incident edges are listed once.
    pub closed spec fn wf(&self) -> bool {
        &&& slots_fit::<NodeId, RawNode<EdgeId, NodeData>>(self.nodes@)
        &&& slots_fit::<EdgeId, RawEdge<NodeId, EdgeData>>(self.edges@)
        &&& forall|i: int|
            0 <= i < self.nodes@.len() && (#[trigger] self.nodes@[i]) is Some
                ==> self.nodes@[i]->0.edges@.no_duplicates()
    }

    pub closed spec fn has_node(&self, id: NodeId) -> bool {
        id.spec_index() < self.nodes@.len() && self.nodes@[id.spec_index() as int] is Some
    }

    pub closed spec fn has_edge(&self, id: EdgeId) -> bool {
        id.spec_index() < self.edges@.len() && self.edges@[id.spec_index() as int] is Some
    }

    pub closed spec fn node_entry(&self, id: NodeId) -> NodeEntry<EdgeId, NodeData> {
        let raw = self.nodes@[id.spec_index() as int]->0;
        NodeEntry { edges: raw.edges@, data: raw.data }
    }

    pub closed spec fn edge_entry(&self, id: EdgeId) -> EdgeEntry<NodeId, EdgeData> {
        let raw = self.edges@[id.spec_index() as int]->0;
        EdgeEntry { from: raw.from, to: raw.to, data: raw.data }
    }

    /// What the graph stores of its nodes.
    pub open spec fn node_map(&self) -> Map<NodeId, NodeEntry<EdgeId, NodeData>> {
        Map::new(|id: NodeId| self.has_node(id), |id: NodeId| self.node_entry(id))
    }

    /// What the graph stores of its edges.
    pub open spec fn edge_map(&self) -> Map<EdgeId, EdgeEntry<NodeId, EdgeData>> {
        Map::new(|id: EdgeId| self.has_edge(id), |id: EdgeId| self.edge_entry(id))
    }

    /// The index of the next node identifier.
    pub closed spec fn next_node(&self) -> nat {
        self.nodes@.len()
    }

    /// The index of the next edge identifier.
    pub closed spec fn next_edge(&self) -> nat {
        self.edges@.len()
    }

    /// Identifiers that were not handed out yet lead nowhere.
    pub proof fn lemma_unissued(&self)
        ensures
            forall|id: NodeId| #[trigger] self.has_node(id) ==> id.spec_index() < self.next_node(),
            forall|id: EdgeId| #[trigger] self.has_edge(id) ==> id.spec_index() < self.next_edge(),
    {
    }
}

/// The incident edges and the ends of the edges fit together: an edge is listed at both
/// of its ends, these are nodes, and a node lists nothing else.
pub open spec fn is_linked<NodeId, EdgeId, NodeData, EdgeData>(
    nodes: Map<NodeId, NodeEntry<EdgeId, NodeData>>,
    edges: Map<EdgeId, EdgeEntry<NodeId, EdgeData>>,
) -> bool {
    &&& forall|e: EdgeId| #[trigger]
        edges.contains_key(e) ==> {
            &&& nodes.contains_key(edges[e].from)
            &&& nodes.contains_key(edges[e].to)
            &&& nodes[edges[e].from].edges.contains(e)
            &&& nodes[edges[e].to].edges.contains(e)
        }
    &&& forall|n: NodeId, e: EdgeId|
        nodes.contains_key(n) && #[trigger] nodes[n].edges.contains(e) ==> edges.contains_key(e) && (
        edges[e].from == n || edges[e].to == n)
    &&& forall|n: NodeId| #[trigger] nodes.contains_key(n) ==> nodes[n].edges.no_duplicates()
}

/// `edge` is no longer listed at `node`.
pub open spec fn unlist<NodeId, EdgeId, NodeData>(
    nodes: Map<NodeId, NodeEntry<EdgeId, NodeData>>,
    node: NodeId,
    edge: EdgeId,
) -> Map<NodeId, NodeEntry<EdgeId, NodeData>> {
    nodes.insert(
        node,
        NodeEntry { edges: without_id(nodes[node].edges, edge), data: nodes[node].data },
    )
}

/// `edge` is listed at `node`.
pub open spec fn enlist<NodeId, EdgeId, NodeData>(
    nodes: Map<NodeId, NodeEntry<EdgeId, NodeData>>,
    node: NodeId,
    edge: EdgeId,
) -> Map<NodeId, NodeEntry<EdgeId, NodeData>> {
    nodes.insert(
        node,
        NodeEntry { edges: with_id(nodes[node].edges, edge), data: nodes[node].data },
    )
}

impl<NodeId: Identifier, EdgeId: Identifier, NodeData, EdgeData> Default for OwningGraph<
    NodeId,
    EdgeId,
    NodeData,
    EdgeData,
> {
    fn default() -> (graph: Self)
        ensures
            graph.wf(),
            graph.node_map() == Map::<NodeId, NodeEntry<EdgeId, NodeData>>::empty(),
            graph.edge_map() == Map::<EdgeId, EdgeEntry<NodeId, EdgeData>>::empty(),
            graph.next_node() == 0,
            graph.next_edge() == 0,
    {
        let graph = OwningGraph { nodes: Vec::new(), edges: Vec::new() };
        assert(graph.node_map() =~= Map::<NodeId, NodeEntry<EdgeId, NodeData>>::empty());
        assert(graph.edge_map() =~= Map::<EdgeId, EdgeEntry<NodeId, EdgeData>>::empty());
        graph
    }
}

impl<NodeId: Identifier, EdgeId: Identifier, NodeData, EdgeData> OwningGraph<
    NodeId,
    EdgeId,
    NodeData,
    EdgeData,
> {
    /// Creates a new node with payload `data` and returns its identifier.
    pub fn make_node(&mut self, data: NodeData) -> (id: NodeId)
        requires
            old(self).wf(),
            old(self).next_node() < usize::MAX,
            id_fits::<NodeId>(old(self).next_node() as usize),
        ensures
            final(self).wf(),
            id == NodeId::spec_from_index(old(self).next_node() as usize),
            !old(self).node_map().contains_key(id),
            final(self).node_map() == old(self).node_map().insert(
                id,
                (NodeEntry { edges: Seq::empty(), data }),
            ),
            final(self).edge_map() == old(self).edge_map(),
            final(self).next_node() == old(self).next_node() + 1,
            final(self).next_edge() == old(self).next_edge(),
    {
        let n: usize = self.nodes.len();
        let id = NodeId::from_usize(n);
        self.nodes.push(Some(RawNode { edges: Vec::new(), data }));
        proof {
            let before = *old(self);
            let entry = NodeEntry { edges: Seq::<EdgeId>::empty(), data };
            assert forall|i: int|
                0 <= i < self.nodes@.len() && (#[trigger] self.nodes@[i]) is Some implies id_fits::<
                NodeId,
            >(i as usize) && self.nodes@[i]->0.edges@.no_duplicates() by {
                if i < n {
                    assert(before.nodes@[i] is Some);
                }
            }
            assert forall|x: NodeId| self.has_node(x) <==> before.has_node(x) || x == id by {
                lemma_id_injective(x, id);
            }
            assert forall|x: NodeId| before.has_node(x) implies self.node_entry(x)
                == before.node_entry(x) by {}
            assert(self.node_entry(id) == entry);
            assert(self.node_map() =~= before.node_map().insert(id, entry));
            assert(self.edge_map() =~= before.edge_map());
        }
        id
    }

    /// Lists `edge` at `node`.
    fn enlist_edge(&mut self, node: NodeId, edge: EdgeId)
        requires
            old(self).wf(),
            old(self).node_map().contains_key(node),
        ensures
            final(self).wf(),
            final(self).node_map() == enlist(old(self).node_map(), node, edge),
            final(self).edge_map() == old(self).edge_map(),
            final(self).edges == old(self).edges,
            final(self).next_node() == old(self).next_node(),
            final(self).next_edge() == old(self).next_edge(),
    {
        let ghost before = *self;
        let k: usize = node.to_usize();
        match &mut self.nodes[k] {
            Some(raw) => {
                insert_id(&mut raw.edges, edge);
            },
            None => {},
        }
        proof {
            lemma_with_id(before.nodes@[k as int]->0.edges@, edge);
            before.lemma_slot_changed(self, node);
            assert(self.node_map() =~= enlist(before.node_map(), node, edge));
        }
    }

    /// Takes `edge` off the list of `node`.
    fn unlist_edge(&mut self, node: NodeId, edge: EdgeId)
        requires
            old(self).wf(),
            old(self).node_map().contains_key(node),
        ensures
            final(self).wf(),
            final(self).node_map() == unlist(old(self).node_map(), node, edge),
            final(self).edge_map() == old(self).edge_map(),
            final(self).edges == old(self).edges,
            final(self).next_node() == old(self).next_node(),
            final(self).next_edge() == old(self).next_edge(),
    {
        let ghost before = *self;
        let k: usize = node.to_usize();
        assert(self.nodes@[k as int] is Some);
        match &mut self.nodes[k] {
            Some(raw) => {
                remove_id(&mut raw.edges, edge);
            },
            None => {},
        }
        proof {
            lemma_without_id(before.nodes@[k as int]->0.edges@, edge);
            before.lemma_slot_changed(self, node);
            assert(self.node_map() =~= unlist(before.node_map(), node, edge));
        }
    }

    /// A change in one slot leaves the other nodes and all edges as they are.
    proof fn lemma_slot_changed(&self, after: &Self, node: NodeId)
        requires
            self.wf(),
            self.has_node(node),
            after.edges == self.edges,
            after.nodes@ == self.nodes@.update(
                node.spec_index() as int,
                after.nodes@[node.spec_index() as int],
            ),
            after.nodes@[node.spec_index() as int] is Some,
            after.nodes@[node.spec_index() as int]->0.edges@.no_duplicates(),
        ensures
            after.wf(),
            after.edge_map() == self.edge_map(),
            after.node_map() == self.node_map().insert(node, after.node_entry(node)),
    {
        assert forall|x: NodeId| after.has_node(x) <==> self.has_node(x) by {
            lemma_id_injective(x, node);
        }
        assert forall|x: NodeId| self.has_node(x) && x != node implies after.node_entry(x)
            == self.node_entry(x) by {
            lemma_id_injective(x, node);
        }
        assert(after.node_map() =~= self.node_map().insert(node, after.node_entry(node)));
        assert(after.edge_map() =~= self.edge_map());
        assert forall|i: int|
            0 <= i < after.nodes@.len() && (#[trigger] after.nodes@[i]) is Some implies id_fits::<
            NodeId,
        >(i as usize) && after.nodes@[i]->0.edges@.no_duplicates() by {
            assert(self.nodes@[i] is Some);
        }
    }

    /// Creates a new edge from `from` to `to` with payload `data`. Both must be nodes.
    pub fn make_edge(&mut self, from: NodeId, to: NodeId, data: EdgeData) -> (id: EdgeId)
        requires
            old(self).wf(),
            old(self).node_map().contains_key(from),
            old(self).node_map().contains_key(to),
            old(self).next_edge() < usize::MAX,
            id_fits::<EdgeId>(old(self).next_edge() as usize),
        ensures
            final(self).wf(),
            id == EdgeId::spec_from_index(old(self).next_edge() as usize),
            !old(self).edge_map().contains_key(id),
            final(self).edge_map() == old(self).edge_map().insert(id, (EdgeEntry { from, to, data })),
            final(self).node_map() == enlist(enlist(old(self).node_map(), from, id), to, id),
            final(self).next_node() == old(self).next_node(),
            final(self).next_edge() == old(self).next_edge() + 1,
    {
        let n: usize = self.edges.len();
        let id = EdgeId::from_usize(n);
        let ghost before = *self;
        self.edges.push(Some(RawEdge { from, to, data }));
        proof {
            let entry = EdgeEntry { from, to, data };
            assert forall|i: int|
                0 <= i < self.edges@.len() && (#[trigger] self.edges@[i]) is Some implies id_fits::<
                EdgeId,
            >(i as usize) by {
                if i < n {
                    assert(before.edges@[i] is Some);
                }
            }
            assert forall|x: EdgeId| self.has_edge(x) <==> before.has_edge(x) || x == id by {
                lemma_id_injective(x, id);
            }
            assert forall|x: EdgeId| before.has_edge(x) implies self.edge_entry(x)
                == before.edge_entry(x) by {}
            assert(self.edge_entry(id) == entry);
            assert(self.edge_map() =~= before.edge_map().insert(id, entry));
            assert(self.node_map() =~= before.node_map());
        }
        self.enlist_edge(from, id);
        self.enlist_edge(to, id);
        id
    }

    /// Removes an edge by identifier. The edge and both of its ends must exist.
    pub fn remove_edge(&mut self, id: EdgeId)
        requires
            old(self).wf(),
            old(self).edge_map().contains_key(id),
            old(self).node_map().contains_key(old(self).edge_map()[id].from),
            old(self).node_map().contains_key(old(self).edge_map()[id].to),
        ensures
            final(self).wf(),
            final(self).edge_map() == old(self).edge_map().remove(id),
            final(self).node_map() == unlist(
                unlist(old(self).node_map(), old(self).edge_map()[id].from, id),
                old(self).edge_map()[id].to,
                id,
            ),
            final(self).next_node() == old(self).next_node(),
            final(self).next_edge() == old(self).next_edge(),
    {
        let ghost before = *self;
        let k: usize = id.to_usize();
        let mut slot: Option<RawEdge<NodeId, EdgeData>> = None;
        std::mem::swap(&mut slot, &mut self.edges[k]);
        let edge = slot.unwrap();
        proof {
            assert forall|i: int|
                0 <= i < self.edges@.len() && (#[trigger] self.edges@[i]) is Some implies id_fits::<
                EdgeId,
            >(i as usize) by {
                assert(before.edges@[i] is Some);
            }
            assert forall|x: EdgeId| self.has_edge(x) <==> before.has_edge(x) && x != id by {
                lemma_id_injective(x, id);
            }
            assert forall|x: EdgeId| self.has_edge(x) implies self.edge_entry(x)
                == before.edge_entry(x) by {
                lemma_id_injective(x, id);
            }
            assert(self.edge_map() =~= before.edge_map().remove(id));
            assert(self.node_map() =~= before.node_map());
            assert(edge.from == before.edge_map()[id].from);
            assert(edge.to == before.edge_map()[id].to);
        }
        self.unlist_edge(edge.from, id);
        self.unlist_edge(edge.to, id);
    }

    /// Edits an edge's endpoints. The edge, its ends and its new ends must exist.
    pub fn edit_edge(&mut self, id: EdgeId, new_from: NodeId, new_to: NodeId)
        requires
            old(self).wf(),
            old(self).edge_map().contains_key(id),
            old(self).node_map().contains_key(old(self).edge_map()[id].from),
            old(self).node_map().contains_key(old(self).edge_map()[id].to),
            old(self).node_map().contains_key(new_from),
            old(self).node_map().contains_key(new_to),
        ensures
            final(self).wf(),
            final(self).edge_map() == old(self).edge_map().insert(
                id,
                (EdgeEntry { from: new_from, to: new_to, data: old(self).edge_map()[id].data }),
            ),
            final(self).node_map() == enlist(
                enlist(
                    unlist(
                        unlist(old(self).node_map(), old(self).edge_map()[id].from, id),
                        old(self).edge_map()[id].to,
                        id,
                    ),
                    new_from,
                    id,
                ),
                new_to,
                id,
            ),
            final(self).next_node() == old(self).next_node(),
            final(self).next_edge() == old(self).next_edge(),
    {
        let ghost before = *self;
        let k: usize = id.to_usize();
        let (from, to) = self.ends(id);
        self.unlist_edge(from, id);
        self.unlist_edge(to, id);
        let ghost mid = *self;
        match &mut self.edges[k] {
            Some(raw) => {
                raw.from = new_from;
                raw.to = new_to;
            },
            None => {},
        }
        proof {
            let entry = EdgeEntry {
                from: new_from,
                to: new_to,
                data: before.edge_map()[id].data,
            };
            mid.lemma_edge_slot_changed(self, id);
            assert(self.edge_map() =~= before.edge_map().insert(id, entry));
        }
        self.enlist_edge(new_from, id);
        self.enlist_edge(new_to, id);
    }

    proof fn lemma_edge_slot_changed(&self, after: &Self, edge: EdgeId)
        requires
            self.wf(),
            self.has_edge(edge),
            after.nodes == self.nodes,
            after.edges@ == self.edges@.update(
                edge.spec_index() as int,
                after.edges@[edge.spec_index() as int],
            ),
            after.edges@[edge.spec_index() as int] is Some,
        ensures
            after.wf(),
            after.node_map() == self.node_map(),
            after.edge_map() == self.edge_map().insert(edge, after.edge_entry(edge)),
    {
        assert forall|x: EdgeId| after.has_edge(x) <==> self.has_edge(x) by {
            lemma_id_injective(x, edge);
        }
        assert forall|x: EdgeId| self.has_edge(x) && x != edge implies after.edge_entry(x)
            == self.edge_entry(x) by {
            lemma_id_injective(x, edge);
        }
        assert(after.edge_map() =~= self.edge_map().insert(edge, after.edge_entry(edge)));
        assert(after.node_map() =~= self.node_map());
        assert forall|i: int|
            0 <= i < after.edges@.len() && (#[trigger] after.edges@[i]) is Some implies id_fits::<
            EdgeId,
        >(i as usize) by {
            assert(self.edges@[i] is Some);
        }
    }

    fn edge_data_mut(&mut self, id: EdgeId) -> (data: &mut EdgeData)
        requires
            old(self).wf(),
            old(self).edge_map().contains_key(id),
        ensures
            *data == old(self).edge_map()[id].data,
            final(self).wf(),
            final(self).edge_map() == old(self).edge_map().insert(
                id,
                (EdgeEntry {
                    from: old(self).edge_map()[id].from,
                    to: old(self).edge_map()[id].to,
                    data: *final(data),
                }),
            ),
            final(self).node_map() == old(self).node_map(),
            final(self).next_node() == old(self).next_node(),
            final(self).next_edge() == old(self).next_edge(),
    {
        let k: usize = id.to_usize();
        let raw = self.edges[k].as_mut().unwrap();
        let data = &mut raw.data;
        proof {
            let after = *after_borrow(self);
            old(self).lemma_edge_slot_changed(&after, id);
        }
        data
    }

    fn node_data_mut(&mut self, id: NodeId) -> (data: &mut NodeData)
        requires
            old(self).wf(),
            old(self).node_map().contains_key(id),
        ensures
            *data == old(self).node_map()[id].data,
            final(self).wf(),
            final(self).node_map() == old(self).node_map().insert(
                id,
                (NodeEntry { edges: old(self).node_map()[id].edges, data: *final(data) }),
            ),
            final(self).edge_map() == old(self).edge_map(),
            final(self).next_node() == old(self).next_node(),
            final(self).next_edge() == old(self).next_edge(),
    {
        let k: usize = id.to_usize();
        let raw = self.nodes[k].as_mut().unwrap();
        let data = &mut raw.data;
        proof {
            let after = *after_borrow(self);
            old(self).lemma_slot_changed(&after, id);
        }
        data
    }

    /// The ends of an edge.
    fn ends(&self, id: EdgeId) -> (ends: (NodeId, NodeId))
        requires
            self.edge_map().contains_key(id),
        ensures
            ends.0 == self.edge_map()[id].from,
            ends.1 == self.edge_map()[id].to,
    {
        let raw = self.edges[id.to_usize()].as_ref().unwrap();
        (raw.from, raw.to)
    }

    /// Removes a node and all of its incident edges. The node, these edges and their ends
    /// must exist.
    #[verifier::rlimit(40)]
    pub fn remove_node(&mut self, id: NodeId)
        requires
            old(self).wf(),
            old(self).node_map().contains_key(id),
            forall|e: EdgeId| #[trigger]
                old(self).node_map()[id].edges.contains(e) ==> {
                    &&& old(self).edge_map().contains_key(e)
                    &&& old(self).node_map().contains_key(old(self).edge_map()[e].from)
                    &&& old(self).node_map().contains_key(old(self).edge_map()[e].to)
                },
        ensures
            final(self).wf(),
            final(self).node_map() == drop_edges(
                old(self).node_map(),
                old(self).edge_map(),
                old(self).node_map()[id].edges,
            ).0.remove(id),
            final(self).edge_map() == drop_edges(
                old(self).node_map(),
                old(self).edge_map(),
                old(self).node_map()[id].edges,
            ).1,
            final(self).next_node() == old(self).next_node(),
            final(self).next_edge() == old(self).next_edge(),
    {
        let ghost before = *self;
        let ghost list = before.node_map()[id].edges;
        let k: usize = id.to_usize();
        let mut edges: Vec<EdgeId> = Vec::new();
        let listed = &self.nodes[k].as_ref().unwrap().edges;
        for i in 0..listed.len()
            invariant
                listed@ == list,
                edges@ == list.subrange(0, i as int),
        {
            edges.push(listed[i]);
            assert(edges@ =~= list.subrange(0, i + 1));
        }
        assert(edges@ =~= list);
        assert(list.no_duplicates());
        for i in 0..edges.len()
            invariant
                self.wf(),
                edges@ == list,
                list.no_duplicates(),
                list == before.node_map()[id].edges,
                before.node_map().contains_key(id),
                forall|e: EdgeId| #[trigger]
                    list.contains(e) ==> {
                        &&& before.edge_map().contains_key(e)
                        &&& before.node_map().contains_key(before.edge_map()[e].from)
                        &&& before.node_map().contains_key(before.edge_map()[e].to)
                    },
                self.node_map() == drop_edges(
                    before.node_map(),
                    before.edge_map(),
                    list.subrange(0, i as int),
                ).0,
                self.edge_map() == drop_edges(
                    before.node_map(),
                    before.edge_map(),
                    list.subrange(0, i as int),
                ).1,
                self.next_node() == before.next_node(),
                self.next_edge() == before.next_edge(),
        {
            let edge = edges[i];
            proof {
                let done = list.subrange(0, i as int);
                assert(list.contains(edge));
                assert forall|e: EdgeId| done.contains(e) implies list.contains(e) by {
                    assert(list[done.index_of(e)] == e);
                }
                lemma_drop_edges(before.node_map(), before.edge_map(), done);
                assert(!done.contains(edge)) by {
                    if done.contains(edge) {
                        assert(list[done.index_of(edge)] == edge);
                    }
                }
                assert(list.subrange(0, i + 1).drop_last() =~= done);
                assert(self.edge_map().contains_key(edge));
                assert(self.edge_map()[edge] == before.edge_map()[edge]);
                assert(self.node_map().dom().contains(before.edge_map()[edge].from));
                assert(self.node_map().dom().contains(before.edge_map()[edge].to));
            }
            self.remove_edge(edge);
        }
        assert(list.subrange(0, list.len() as int) =~= list);
        let ghost mid = *self;
        proof {
            lemma_drop_edges(before.node_map(), before.edge_map(), list);
            assert(mid.has_node(id));
        }
        self.nodes.set(k, None);
        proof {
            assert forall|i: int|
                0 <= i < self.nodes@.len() && (#[trigger] self.nodes@[i]) is Some implies id_fits::<
                NodeId,
            >(i as usize) && self.nodes@[i]->0.edges@.no_duplicates() by {
                assert(mid.nodes@[i] is Some);
            }
            assert forall|x: NodeId| self.has_node(x) <==> mid.has_node(x) && x != id by {
                lemma_id_injective(x, id);
            }
            assert forall|x: NodeId| self.has_node(x) implies self.node_entry(x)
                == mid.node_entry(x) by {
                lemma_id_injective(x, id);
            }
            assert(self.node_map() =~= mid.node_map().remove(id));
            assert(self.edge_map() =~= mid.edge_map());
        }
    }

    /// A graph of the same structure whose payloads are made from those of this one.
    #[verifier::rlimit(40)]
    pub fn reinterpret<NewNodeData, NewEdgeData, FNode, FEdge>(
        &self,
        node_data_map: FNode,
        edge_data_map: FEdge,
    ) -> (graph: OwningGraph<NodeId, EdgeId, NewNodeData, NewEdgeData>) where
        FNode: Fn(&NodeData) -> NewNodeData,
        FEdge: Fn(&EdgeData) -> NewEdgeData,

        requires
            self.wf(),
            forall|id: NodeId| #[trigger]
                self.node_map().contains_key(id) ==> node_data_map.requires(
                    (&self.node_map()[id].data,),
                ),
            forall|id: EdgeId| #[trigger]
                self.edge_map().contains_key(id) ==> edge_data_map.requires(
                    (&self.edge_map()[id].data,),
                ),
        ensures
            graph.wf(),
            graph.next_node() == self.next_node(),
            graph.next_edge() == self.next_edge(),
            graph.node_map().dom() == self.node_map().dom(),
            graph.edge_map().dom() == self.edge_map().dom(),
            forall|id: NodeId| #[trigger]
                self.node_map().contains_key(id) ==> {
                    &&& graph.node_map()[id].edges == self.node_map()[id].edges
                    &&& node_data_map.ensures(
                        (&self.node_map()[id].data,),
                        graph.node_map()[id].data,
                    )
                },
            forall|id: EdgeId| #[trigger]
                self.edge_map().contains_key(id) ==> {
                    &&& graph.edge_map()[id].from == self.edge_map()[id].from
                    &&& graph.edge_map()[id].to == self.edge_map()[id].to
                    &&& edge_data_map.ensures(
                        (&self.edge_map()[id].data,),
                        graph.edge_map()[id].data,
                    )
                },
    {
        let mut nodes: Vec<Option<RawNode<EdgeId, NewNodeData>>> = Vec::new();
        for i in 0..self.nodes.len()
            invariant
                self.wf(),
                forall|id: NodeId| #[trigger]
                    self.node_map().contains_key(id) ==> node_data_map.requires(
                        (&self.node_map()[id].data,),
                    ),
                nodes@.len() == i,
                forall|j: int|
                    #![trigger nodes@[j]]
                    0 <= j < i ==> {
                        &&& nodes@[j] is Some <==> self.nodes@[j] is Some
                        &&& nodes@[j] is Some ==> nodes@[j]->0.edges@ == self.nodes@[j]->0.edges@
                            && node_data_map.ensures(
                            (&self.nodes@[j]->0.data,),
                            nodes@[j]->0.data,
                        )
                    },
        {
            match &self.nodes[i] {
                Some(raw) => {
                    let mut edges: Vec<EdgeId> = Vec::new();
                    for k in 0..raw.edges.len()
                        invariant
                            edges@ == raw.edges@.subrange(0, k as int),
                    {
                        edges.push(raw.edges[k]);
                        assert(edges@ =~= raw.edges@.subrange(0, k + 1));
                    }
                    assert(edges@ =~= raw.edges@);
                    proof {
                        let id = NodeId::spec_from_index(i);
                        assert(self.nodes@[i as int] is Some);
                        assert(id_fits::<NodeId>(i));
                        assert(self.node_map().contains_key(id));
                        assert(self.node_map()[id].data == raw.data);
                    }
                    let data = node_data_map(&raw.data);
                    nodes.push(Some(RawNode { edges, data }));
                },
                None => {
                    nodes.push(None);
                },
            }
        }
        let mut edges: Vec<Option<RawEdge<NodeId, NewEdgeData>>> = Vec::new();
        for i in 0..self.edges.len()
            invariant
                self.wf(),
                forall|id: EdgeId| #[trigger]
                    self.edge_map().contains_key(id) ==> edge_data_map.requires(
                        (&self.edge_map()[id].data,),
                    ),
                edges@.len() == i,
                forall|j: int|
                    #![trigger edges@[j]]
                    0 <= j < i ==> {
                        &&& edges@[j] is Some <==> self.edges@[j] is Some
                        &&& edges@[j] is Some ==> edges@[j]->0.from == self.edges@[j]->0.from
                            && edges@[j]->0.to == self.edges@[j]->0.to && edge_data_map.ensures(
                            (&self.edges@[j]->0.data,),
                            edges@[j]->0.data,
                        )
                    },
        {
            match &self.edges[i] {
                Some(raw) => {
                    proof {
                        let id = EdgeId::spec_from_index(i);
                        assert(self.edges@[i as int] is Some);
                        assert(id_fits::<EdgeId>(i));
                        assert(self.edge_map().contains_key(id));
                        assert(self.edge_map()[id].data == raw.data);
                    }
                    let data = edge_data_map(&raw.data);
                    edges.push(Some(RawEdge { from: raw.from, to: raw.to, data }));
                },
                None => {
                    edges.push(None);
                },
            }
        }
        let graph = OwningGraph { nodes, edges };
        proof {
            assert(graph.node_map().dom() =~= self.node_map().dom());
            assert(graph.edge_map().dom() =~= self.edge_map().dom());
            assert forall|i: int|
                0 <= i < graph.nodes@.len() && (#[trigger] graph.nodes@[i]) is Some implies id_fits::<
                NodeId,
            >(i as usize) && graph.nodes@[i]->0.edges@.no_duplicates() by {
                assert(self.nodes@[i] is Some);
            }
            assert forall|i: int|
                0 <= i < graph.edges@.len() && (#[trigger] graph.edges@[i]) is Some implies id_fits::<
                EdgeId,
            >(i as usize) by {
                assert(self.edges@[i] is Some);
            }
        }
        graph
    }
}

/// The edges of `list` are removed one after the other.
pub open spec fn drop_edges<NodeId, EdgeId, NodeData, EdgeData>(
    nodes: Map<NodeId, NodeEntry<EdgeId, NodeData>>,
    edges: Map<EdgeId, EdgeEntry<NodeId, EdgeData>>,
    list: Seq<EdgeId>,
) -> (Map<NodeId, NodeEntry<EdgeId, NodeData>>, Map<EdgeId, EdgeEntry<NodeId, EdgeData>>)
    decreases list.len(),
{
    if list.len() == 0 {
        (nodes, edges)
    } else {
        let (rest_nodes, rest_edges) = drop_edges(nodes, edges, list.drop_last());
        let id = list.last();
        (
            unlist(unlist(rest_nodes, rest_edges[id].from, id), rest_edges[id].to, id),
            rest_edges.remove(id),
        )
    }
}

/// Removing edges takes away nothing but these edges, and no node.
pub proof fn lemma_drop_edges<NodeId, EdgeId, NodeData, EdgeData>(
    nodes: Map<NodeId, NodeEntry<EdgeId, NodeData>>,
    edges: Map<EdgeId, EdgeEntry<NodeId, EdgeData>>,
    list: Seq<EdgeId>,
)
    requires
        list.no_duplicates(),
        forall|e: EdgeId| #[trigger]
            list.contains(e) ==> edges.contains_key(e) && nodes.contains_key(edges[e].from)
                && nodes.contains_key(edges[e].to),
    ensures
        drop_edges(nodes, edges, list).0.dom() == nodes.dom(),
        forall|e: EdgeId| #[trigger]
            drop_edges(nodes, edges, list).1.contains_key(e) <==> edges.contains_key(e)
                && !list.contains(e),
        forall|e: EdgeId| #[trigger]
            drop_edges(nodes, edges, list).1.contains_key(e) ==> drop_edges(nodes, edges, list).1[e]
                == edges[e],
    decreases list.len(),
{
    if list.len() > 0 {
        let rest = list.drop_last();
        let id = list.last();
        assert forall|e: EdgeId| #[trigger] rest.contains(e) implies list.contains(e) by {
            assert(list[rest.index_of(e)] == e);
        }
        assert(list.contains(id)) by {
            assert(list[list.len() - 1] == id);
        }
        lemma_drop_edges(nodes, edges, rest);
        assert(!rest.contains(id)) by {
            if rest.contains(id) {
                assert(list[rest.index_of(id)] == id);
            }
        }
        assert forall|e: EdgeId| list.contains(e) <==> rest.contains(e) || e == id by {
            if list.contains(e) {
                let i = list.index_of(e);
                if i < rest.len() {
                    assert(rest[i] == e);
                }
            }
        }
        let before = drop_edges(nodes, edges, rest);
        assert(before.1.contains_key(id));
        assert(before.0.dom().contains(edges[id].from));
        assert(before.0.dom().contains(edges[id].to));
        let after = drop_edges(nodes, edges, list);
        assert(after.0.dom() =~= nodes.dom());
    }
}

impl<NodeId: Identifier, EdgeId: Identifier, NodeData, EdgeData> Graph for OwningGraph<NodeId, EdgeId, NodeData, EdgeData> {
    type NodeId = NodeId;

    type EdgeId = EdgeId;

    open spec fn is_intact(&self) -> bool {
        self.wf()
    }

    closed spec fn spec_nodes(&self) -> Seq<NodeId> {
        taken(self.nodes@)
    }

    closed spec fn spec_edges(&self) -> Seq<EdgeId> {
        taken(self.edges@)
    }

    open spec fn spec_from(&self, edge: EdgeId) -> NodeId {
        if self.edge_map().contains_key(edge) {
            self.edge_map()[edge].from
        } else {
            arbitrary()
        }
    }

    open spec fn spec_to(&self, edge: EdgeId) -> NodeId {
        if self.edge_map().contains_key(edge) {
            self.edge_map()[edge].to
        } else {
            arbitrary()
        }
    }

    open spec fn spec_incident(&self, node: NodeId) -> Seq<EdgeId> {
        if self.node_map().contains_key(node) {
            self.node_map()[node].edges
        } else {
            Seq::empty()
        }
    }

    fn node_ids(&self) -> (ids: Vec<NodeId>) {
        taken_ids(&self.nodes)
    }

    fn edge_ids(&self) -> (ids: Vec<EdgeId>) {
        taken_ids(&self.edges)
    }

    fn contains_node(&self, node: NodeId) -> (found: bool) {
        proof {
            lemma_taken::<NodeId, RawNode<EdgeId, NodeData>>(self.nodes@);
        }
        node.to_usize() < self.nodes.len() && self.nodes[node.to_usize()].is_some()
    }

    fn contains_edge(&self, edge: EdgeId) -> (found: bool) {
        proof {
            lemma_taken::<EdgeId, RawEdge<NodeId, EdgeData>>(self.edges@);
        }
        edge.to_usize() < self.edges.len() && self.edges[edge.to_usize()].is_some()
    }

    fn source(&self, edge: EdgeId) -> (node: NodeId) {
        proof {
            self.lemma_members();
        }
        self.ends(edge).0
    }

    fn target(&self, edge: EdgeId) -> (node: NodeId) {
        proof {
            self.lemma_members();
        }
        self.ends(edge).1
    }

    fn incident(&self, node: NodeId) -> (edges: &Vec<EdgeId>) {
        proof {
            self.lemma_members();
        }
        &self.nodes[node.to_usize()].as_ref().unwrap().edges
    }
}

impl<NodeId: Identifier, EdgeId: Identifier, NodeData, EdgeData> OwningGraph<NodeId, EdgeId, NodeData, EdgeData> {
    /// The nodes and edges that are listed are those that the graph stores something of.
    pub proof fn lemma_members(&self)
        requires
            self.wf(),
        ensures
            forall|id: NodeId| #[trigger]
                self.spec_nodes().contains(id) <==> self.node_map().contains_key(id),
            forall|id: EdgeId| #[trigger]
                self.spec_edges().contains(id) <==> self.edge_map().contains_key(id),
            self.spec_nodes().no_duplicates(),
            self.spec_edges().no_duplicates(),
            forall|i: int, j: int|
                0 <= i < j < self.spec_nodes().len() ==> (#[trigger] self.spec_nodes()[i]).spec_index()
                    < (#[trigger] self.spec_nodes()[j]).spec_index(),
            forall|i: int, j: int|
                0 <= i < j < self.spec_edges().len() ==> (#[trigger] self.spec_edges()[i]).spec_index()
                    < (#[trigger] self.spec_edges()[j]).spec_index(),
    {
        lemma_taken::<NodeId, RawNode<EdgeId, NodeData>>(self.nodes@);
        lemma_taken::<EdgeId, RawEdge<NodeId, EdgeData>>(self.edges@);
    }

    /// Two graphs with nodes, or edges, under the same identifiers list them alike.
    pub proof fn lemma_same_members(&self, other: &Self)
        requires
            self.wf(),
            other.wf(),
        ensures
            self.node_map().dom() == other.node_map().dom() ==> self.spec_nodes()
                == other.spec_nodes(),
            self.edge_map().dom() == other.edge_map().dom() ==> self.spec_edges()
                == other.spec_edges(),
    {
        self.lemma_members();
        other.lemma_members();
        if self.node_map().dom() == other.node_map().dom() {
            assert forall|id: NodeId| self.spec_nodes().contains(id) <==> other.spec_nodes().contains(
                id,
            ) by {
                assert(self.node_map().dom().contains(id) <==> other.node_map().dom().contains(id));
            }
            lemma_increasing_unique(self.spec_nodes(), other.spec_nodes());
        }
        if self.edge_map().dom() == other.edge_map().dom() {
            assert forall|id: EdgeId| self.spec_edges().contains(id) <==> other.spec_edges().contains(
                id,
            ) by {
                assert(self.edge_map().dom().contains(id) <==> other.edge_map().dom().contains(id));
            }
            lemma_increasing_unique(self.spec_edges(), other.spec_edges());
        }
    }

    /// Edges that are linked can be followed.
    pub proof fn lemma_linked_is_navigable(&self)
        requires
            self.wf(),
            is_linked(self.node_map(), self.edge_map()),
        ensures
            is_navigable(self),
    {
        self.lemma_members();
        assert forall|node: NodeId, edge: EdgeId|
            self.spec_nodes().contains(node) && #[trigger] self.spec_incident(node).contains(edge) implies {
            &&& self.spec_edges().contains(edge)
            &&& self.spec_nodes().contains(self.spec_from(edge))
            &&& self.spec_nodes().contains(self.spec_to(edge))
        } by {
            assert(self.node_map()[node].edges.contains(edge));
        }
    }
}

/// Increasing lists of the same identifiers are the same list.
proof fn lemma_increasing_unique<Id: Identifier>(a: Seq<Id>, b: Seq<Id>)
    requires
        forall|i: int, j: int|
            0 <= i < j < a.len() ==> (#[trigger] a[i]).spec_index() < (#[trigger] a[j]).spec_index(),
        forall|i: int, j: int|
            0 <= i < j < b.len() ==> (#[trigger] b[i]).spec_index() < (#[trigger] b[j]).spec_index(),
        forall|x: Id| #[trigger] a.contains(x) <==> b.contains(x),
    ensures
        a == b,
    decreases a.len(),
{
    if a.len() == 0 {
        if b.len() > 0 {
            assert(a.contains(b[0]));
        }
        assert(a =~= b);
    } else {
        let (x, y) = (a.last(), b.last());
        assert(a.contains(a[a.len() - 1]));
        assert(b.len() > 0);
        assert(b.contains(b[b.len() - 1]));
        assert(a.contains(y) && b.contains(x));
        let i = b.index_of(x);
        let j = a.index_of(y);
        lemma_id_injective(x, y);
        if i < b.len() - 1 {
            assert(b[i].spec_index() < b[b.len() - 1].spec_index());
            if j < a.len() - 1 {
                assert(a[j].spec_index() < a[a.len() - 1].spec_index());
            }
            assert(false);
        }
        let (c, d) = (a.drop_last(), b.drop_last());
        assert forall|z: Id| #[trigger] c.contains(z) <==> d.contains(z) by {
            if c.contains(z) {
                let k = c.index_of(z);
                assert(a[k] == z);
                assert(a.contains(z));
                assert(a[k].spec_index() < a[a.len() - 1].spec_index());
                let l = b.index_of(z);
                assert(d[l] == z);
            }
            if d.contains(z) {
                let k = d.index_of(z);
                assert(b[k] == z);
                assert(b.contains(z));
                assert(b[k].spec_index() < b[b.len() - 1].spec_index());
                assert(a.contains(z));
                let l = a.index_of(z);
                assert(c[l] == z);
            }
        }
        lemma_increasing_unique(c, d);
        assert(a =~= c.push(x));
        assert(b =~= d.push(y));
    }
}

impl<NodeId: Identifier, EdgeId: Identifier, NodeData, EdgeData> GraphMut for OwningGraph<NodeId, EdgeId, NodeData, EdgeData> {
    fn set_source(&mut self, edge: EdgeId, node: NodeId)
        ensures
            final(self).node_map() == old(self).node_map(),
            final(self).edge_map() == old(self).edge_map().insert(
                edge,
                (EdgeEntry {
                    from: node,
                    to: old(self).edge_map()[edge].to,
                    data: old(self).edge_map()[edge].data,
                }),
            ),
            final(self).next_node() == old(self).next_node(),
            final(self).next_edge() == old(self).next_edge(),
    {
        let ghost before = *self;
        let k: usize = edge.to_usize();
        proof {
            self.lemma_members();
        }
        match &mut self.edges[k] {
            Some(raw) => {
                raw.from = node;
            },
            None => {},
        }
        proof {
            before.lemma_edge_slot_changed(self, edge);
            assert(self.edge_map().dom() =~= before.edge_map().dom());
            before.lemma_same_members(self);
        }
    }

    fn add_incident(&mut self, node: NodeId, edge: EdgeId)
        ensures
            final(self).node_map() == enlist(old(self).node_map(), node, edge),
            final(self).edge_map() == old(self).edge_map(),
            final(self).next_node() == old(self).next_node(),
            final(self).next_edge() == old(self).next_edge(),
    {
        let ghost before = *self;
        proof {
            self.lemma_members();
        }
        self.enlist_edge(node, edge);
        proof {
            assert(self.node_map().dom() =~= before.node_map().dom());
            before.lemma_same_members(self);
        }
    }

    fn remove_incident(&mut self, node: NodeId, edge: EdgeId)
        ensures
            final(self).node_map() == unlist(old(self).node_map(), node, edge),
            final(self).edge_map() == old(self).edge_map(),
            final(self).next_node() == old(self).next_node(),
            final(self).next_edge() == old(self).next_edge(),
    {
        let ghost before = *self;
        proof {
            self.lemma_members();
        }
        self.unlist_edge(node, edge);
        proof {
            assert(self.node_map().dom() =~= before.node_map().dom());
            before.lemma_same_members(self);
        }
    }
}

/// A read-only handle on a node.
pub struct NodeRef<'graph, NodeId: Identifier, EdgeId: Identifier, NodeData, EdgeData> {
    pub id: NodeId,
    pub graph: &'graph OwningGraph<NodeId, EdgeId, NodeData, EdgeData>,
}

impl<'graph, NodeId: Identifier, EdgeId: Identifier, NodeData, EdgeData> NodeRef<'graph, NodeId, EdgeId, NodeData, EdgeData> {
    /// The payload of the node.
    pub fn data(&self) -> (data: &'graph NodeData)
        requires
            self.graph.node_map().contains_key(self.id),
        ensures
            *data == self.graph.node_map()[self.id].data,
    {
        &self.graph.nodes[self.id.to_usize()].as_ref().unwrap().data
    }
}

impl<'graph, NodeId: Identifier, EdgeId: Identifier, NodeData, EdgeData> Node<'graph> for NodeRef<'graph, NodeId, EdgeId, NodeData, EdgeData> {
    type Graph = OwningGraph<NodeId, EdgeId, NodeData, EdgeData>;

    open spec fn spec_id(&self) -> NodeId {
        self.id
    }

    open spec fn spec_graph(&self) -> &'graph OwningGraph<NodeId, EdgeId, NodeData, EdgeData> {
        self.graph
    }

    fn new(id: NodeId, graph: &'graph OwningGraph<NodeId, EdgeId, NodeData, EdgeData>) -> (node: Self) {
        NodeRef { id, graph }
    }

    fn id(&self) -> (id: NodeId) {
        self.id
    }

    fn graph(&self) -> (graph: &'graph OwningGraph<NodeId, EdgeId, NodeData, EdgeData>) {
        self.graph
    }
}

/// A read-only handle on an edge.
pub struct EdgeRef<'graph, NodeId: Identifier, EdgeId: Identifier, NodeData, EdgeData> {
    pub id: EdgeId,
    pub graph: &'graph OwningGraph<NodeId, EdgeId, NodeData, EdgeData>,
}

impl<'graph, NodeId: Identifier, EdgeId: Identifier, NodeData, EdgeData> EdgeRef<'graph, NodeId, EdgeId, NodeData, EdgeData> {
    /// The payload of the edge.
    pub fn data(&self) -> (data: &'graph EdgeData)
        requires
            self.graph.edge_map().contains_key(self.id),
        ensures
            *data == self.graph.edge_map()[self.id].data,
    {
        &self.graph.edges[self.id.to_usize()].as_ref().unwrap().data
    }
}

impl<'graph, NodeId: Identifier, EdgeId: Identifier, NodeData, EdgeData> Edge<'graph> for EdgeRef<'graph, NodeId, EdgeId, NodeData, EdgeData> {
    type Graph = OwningGraph<NodeId, EdgeId, NodeData, EdgeData>;

    open spec fn spec_id(&self) -> EdgeId {
        self.id
    }

    open spec fn spec_graph(&self) -> &'graph OwningGraph<NodeId, EdgeId, NodeData, EdgeData> {
        self.graph
    }

    fn new(id: EdgeId, graph: &'graph OwningGraph<NodeId, EdgeId, NodeData, EdgeData>) -> (edge: Self) {
        EdgeRef { id, graph }
    }

    fn id(&self) -> (id: EdgeId) {
        self.id
    }

    fn graph(&self) -> (graph: &'graph OwningGraph<NodeId, EdgeId, NodeData, EdgeData>) {
        self.graph
    }
}

/// A handle on a node through which the graph can be changed.
pub struct NodeMutRef<'graph, NodeId: Identifier, EdgeId: Identifier, NodeData, EdgeData> {
    pub id: NodeId,
    pub graph: &'graph mut OwningGraph<NodeId, EdgeId, NodeData, EdgeData>,
}

impl<'graph, NodeId: Identifier, EdgeId: Identifier, NodeData, EdgeData> NodeMutRef<'graph, NodeId, EdgeId, NodeData, EdgeData> {
    /// The payload of the node.
    pub fn data(&mut self) -> (data: &mut NodeData)
        requires
            old(self).graph.wf(),
            old(self).graph.node_map().contains_key(old(self).id),
        ensures
            *data == old(self).graph.node_map()[old(self).id].data,
            final(self).id == old(self).id,
            final(self).graph.wf(),
            final(self).graph.node_map() == old(self).graph.node_map().insert(
                old(self).id,
                (NodeEntry {
                    edges: old(self).graph.node_map()[old(self).id].edges,
                    data: *final(data),
                }),
            ),
            final(self).graph.edge_map() == old(self).graph.edge_map(),
            final(self).graph.next_node() == old(self).graph.next_node(),
            final(self).graph.next_edge() == old(self).graph.next_edge(),
            *final(final(self).graph) == *final(old(self).graph),
    {
        self.graph.node_data_mut(self.id)
    }
}

impl<'graph, NodeId: Identifier, EdgeId: Identifier, NodeData, EdgeData> NodeMut<'graph> for NodeMutRef<'graph, NodeId, EdgeId, NodeData, EdgeData> {
    type Graph = OwningGraph<NodeId, EdgeId, NodeData, EdgeData>;

    open spec fn spec_id(&self) -> NodeId {
        self.id
    }

    open spec fn spec_graph(&self) -> OwningGraph<NodeId, EdgeId, NodeData, EdgeData> {
        *self.graph
    }

    fn new(id: NodeId, graph: &'graph mut OwningGraph<NodeId, EdgeId, NodeData, EdgeData>) -> (node: Self)
        ensures
            *final(node.graph) == *final(graph),
    {
        NodeMutRef { id, graph }
    }

    fn id(&self) -> (id: NodeId) {
        self.id
    }

    fn graph(&mut self) -> (graph: &mut OwningGraph<NodeId, EdgeId, NodeData, EdgeData>)
        ensures
            *final(final(self).graph) == *final(old(self).graph),
    {
        &mut *self.graph
    }

    fn edge_ids(&self) -> (edges: &Vec<EdgeId>) {
        self.graph.incident(self.id)
    }

    fn add_edge_id(&mut self, edge: EdgeId)
        ensures
            final(self).graph.node_map() == enlist(old(self).graph.node_map(), old(self).id, edge),
            final(self).graph.edge_map() == old(self).graph.edge_map(),
            final(self).graph.next_node() == old(self).graph.next_node(),
            final(self).graph.next_edge() == old(self).graph.next_edge(),
            *final(final(self).graph) == *final(old(self).graph),
    {
        self.graph.add_incident(self.id, edge);
    }

    fn remove_edge_id(&mut self, edge: EdgeId)
        ensures
            final(self).graph.node_map() == unlist(old(self).graph.node_map(), old(self).id, edge),
            final(self).graph.edge_map() == old(self).graph.edge_map(),
            final(self).graph.next_node() == old(self).graph.next_node(),
            final(self).graph.next_edge() == old(self).graph.next_edge(),
            *final(final(self).graph) == *final(old(self).graph),
    {
        self.graph.remove_incident(self.id, edge);
    }
}

/// A handle on an edge through which the graph can be changed.
pub struct EdgeMutRef<'graph, NodeId: Identifier, EdgeId: Identifier, NodeData, EdgeData> {
    pub id: EdgeId,
    pub graph: &'graph mut OwningGraph<NodeId, EdgeId, NodeData, EdgeData>,
}

impl<'graph, NodeId: Identifier, EdgeId: Identifier, NodeData, EdgeData> EdgeMutRef<'graph, NodeId, EdgeId, NodeData, EdgeData> {
    /// The payload of the edge.
    pub fn data(&mut self) -> (data: &mut EdgeData)
        requires
            old(self).graph.wf(),
            old(self).graph.edge_map().contains_key(old(self).id),
        ensures
            *data == old(self).graph.edge_map()[old(self).id].data,
            final(self).id == old(self).id,
            final(self).graph.wf(),
            final(self).graph.node_map() == old(self).graph.node_map(),
            final(self).graph.edge_map() == old(self).graph.edge_map().insert(
                old(self).id,
                (EdgeEntry {
                    from: old(self).graph.edge_map()[old(self).id].from,
                    to: old(self).graph.edge_map()[old(self).id].to,
                    data: *final(data),
                }),
            ),
            final(self).graph.next_node() == old(self).graph.next_node(),
            final(self).graph.next_edge() == old(self).graph.next_edge(),
            *final(final(self).graph) == *final(old(self).graph),
    {
        self.graph.edge_data_mut(self.id)
    }
}

impl<'graph, NodeId: Identifier, EdgeId: Identifier, NodeData, EdgeData> EdgeMut<'graph> for EdgeMutRef<'graph, NodeId, EdgeId, NodeData, EdgeData> {
    type Graph = OwningGraph<NodeId, EdgeId, NodeData, EdgeData>;

    open spec fn spec_id(&self) -> EdgeId {
        self.id
    }

    open spec fn spec_graph(&self) -> OwningGraph<NodeId, EdgeId, NodeData, EdgeData> {
        *self.graph
    }

    fn new(id: EdgeId, graph: &'graph mut OwningGraph<NodeId, EdgeId, NodeData, EdgeData>) -> (edge: Self)
        ensures
            *final(edge.graph) == *final(graph),
    {
        EdgeMutRef { id, graph }
    }

    fn id(&self) -> (id: EdgeId) {
        self.id
    }

    fn graph(&mut self) -> (graph: &mut OwningGraph<NodeId, EdgeId, NodeData, EdgeData>)
        ensures
            *final(final(self).graph) == *final(old(self).graph),
    {
        &mut *self.graph
    }

    fn from_id(&self) -> (node: NodeId) {
        self.graph.source(self.id)
    }

    fn to_id(&self) -> (node: NodeId) {
        self.graph.target(self.id)
    }

    fn set_from(&mut self, node: NodeId)
        ensures
            final(self).graph.node_map() == old(self).graph.node_map(),
            final(self).graph.edge_map() == old(self).graph.edge_map().insert(
                old(self).id,
                (EdgeEntry {
                    from: node,
                    to: old(self).graph.edge_map()[old(self).id].to,
                    data: old(self).graph.edge_map()[old(self).id].data,
                }),
            ),
            final(self).graph.next_node() == old(self).graph.next_node(),
            final(self).graph.next_edge() == old(self).graph.next_edge(),
            *final(final(self).graph) == *final(old(self).graph),
    {
        self.graph.set_source(self.id, node);
    }
}

impl<NodeId: Identifier, EdgeId: Identifier, NodeData, EdgeData> OwningGraph<NodeId, EdgeId, NodeData, EdgeData> {
    /// Gets a node in the graph by its identifier, if it exists.
    pub fn get_node(&self, id: NodeId) -> (node: Option<NodeRef<'_, NodeId, EdgeId, NodeData, EdgeData>>)
        requires
            self.wf(),
        ensures
            node is Some <==> self.node_map().contains_key(id),
            node matches Some(node) ==> node.id == id && node.graph == self,
    {
        proof {
            self.lemma_members();
        }
        if self.contains_node(id) {
            Some(NodeRef { id, graph: self })
        } else {
            None
        }
    }

    /// Gets an edge in the graph by its identifier, if it exists.
    pub fn get_edge(&self, id: EdgeId) -> (edge: Option<EdgeRef<'_, NodeId, EdgeId, NodeData, EdgeData>>)
        requires
            self.wf(),
        ensures
            edge is Some <==> self.edge_map().contains_key(id),
            edge matches Some(edge) ==> edge.id == id && edge.graph == self,
    {
        proof {
            self.lemma_members();
        }
        if self.contains_edge(id) {
            Some(EdgeRef { id, graph: self })
        } else {
            None
        }
    }

    /// All nodes in insertion identifier order.
    pub fn nodes(&self) -> (nodes: Vec<NodeRef<'_, NodeId, EdgeId, NodeData, EdgeData>>)
        requires
            self.wf(),
        ensures
            nodes@.len() == self.spec_nodes().len(),
            forall|i: int|
                #![trigger nodes@[i]]
                0 <= i < nodes@.len() ==> nodes@[i].id == self.spec_nodes()[i] && nodes@[i].graph
                    == self,
    {
        let ids = self.node_ids();
        let mut nodes: Vec<NodeRef<'_, NodeId, EdgeId, NodeData, EdgeData>> = Vec::new();
        for i in 0..ids.len()
            invariant
                nodes@.len() == i,
                forall|j: int|
                    #![trigger nodes@[j]]
                    0 <= j < i ==> nodes@[j].id == ids@[j] && nodes@[j].graph == self,
        {
            nodes.push(NodeRef { id: ids[i], graph: self });
        }
        nodes
    }

    /// All edges in insertion identifier order.
    pub fn edges(&self) -> (edges: Vec<EdgeRef<'_, NodeId, EdgeId, NodeData, EdgeData>>)
        requires
            self.wf(),
        ensures
            edges@.len() == self.spec_edges().len(),
            forall|i: int|
                #![trigger edges@[i]]
                0 <= i < edges@.len() ==> edges@[i].id == self.spec_edges()[i] && edges@[i].graph
                    == self,
    {
        let ids = self.edge_ids();
        let mut edges: Vec<EdgeRef<'_, NodeId, EdgeId, NodeData, EdgeData>> = Vec::new();
        for i in 0..ids.len()
            invariant
                edges@.len() == i,
                forall|j: int|
                    #![trigger edges@[j]]
                    0 <= j < i ==> edges@[j].id == ids@[j] && edges@[j].graph == self,
        {
            edges.push(EdgeRef { id: ids[i], graph: self });
        }
        edges
    }

    /// Gets a node by its identifier for mutation, if it exists.
    pub fn get_node_mut(&mut self, id: NodeId) -> (node: Option<NodeMutRef<'_, NodeId, EdgeId, NodeData, EdgeData>>)
        requires
            old(self).wf(),
        ensures
            node is Some <==> old(self).node_map().contains_key(id),
            node matches Some(node) ==> node.id == id && *node.graph == *old(self) && *final(node.graph) == *final(self),
            node is None ==> *final(self) == *old(self),
    {
        proof {
            self.lemma_members();
        }
        if self.contains_node(id) {
            Some(NodeMutRef { id, graph: self })
        } else {
            None
        }
    }

    /// Gets an edge by its identifier for mutation, if it exists.
    pub fn get_edge_mut(&mut self, id: EdgeId) -> (edge: Option<EdgeMutRef<'_, NodeId, EdgeId, NodeData, EdgeData>>)
        requires
            old(self).wf(),
        ensures
            edge is Some <==> old(self).edge_map().contains_key(id),
            edge matches Some(edge) ==> edge.id == id && *edge.graph == *old(self) && *final(edge.graph) == *final(self),
            edge is None ==> *final(self) == *old(self),
    {
        proof {
            self.lemma_members();
        }
        if self.contains_edge(id) {
            Some(EdgeMutRef { id, graph: self })
        } else {
            None
        }
    }
}

} // verus!
