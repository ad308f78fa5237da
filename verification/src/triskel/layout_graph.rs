//! The working graph of a layout: ranks, orders and the kinds of its nodes and edges.
use crate::graph::owning::{
    enlist, is_linked, unlist, EdgeEntry, NodeEntry, OwningGraph,
};
use crate::graph::Graph;
use vstd::prelude::*;

verus! {

/// What a layout keeps of a node.
#[derive(Clone, Copy, PartialEq, Eq, Structural)]
pub struct NodeLayoutData {
    pub rank: i64,
    pub order: usize,
    /// A node that stands for no node of the caller.
    pub is_dummy: bool,
    /// Number of self-loop edges drawn off this node's right face.
    pub self_loops: u32,
}

impl Default for NodeLayoutData {
    fn default() -> (data: Self)
        ensures
            data == (NodeLayoutData { rank: 0, order: 0, is_dummy: false, self_loops: 0 }),
    {
        NodeLayoutData { rank: 0, order: 0, is_dummy: false, self_loops: 0 }
    }
}

/// What a layout keeps of an edge.
#[derive(Clone, Copy, PartialEq, Eq, Structural)]
pub struct EdgeLayoutData {
    pub minlen: i64,
    pub weight: i64,
    /// True if this edge was reversed to break a cycle (drawn back-to-front).
    pub reversed: bool,
    /// The caller's original edge id this internal edge belongs to.
    pub orig: usize,
    /// Where the caller keeps a fixed offset of the start of the edge.
    pub port_start: Option<usize>,
    /// Where the caller keeps a fixed offset of the end of the edge.
    pub port_end: Option<usize>,
}

impl Default for EdgeLayoutData {
    fn default() -> (data: Self)
        ensures
            data == plain_edge(0, false),
    {
        EdgeLayoutData {
            minlen: 1,
            weight: 1,
            reversed: false,
            orig: 0,
            port_start: None,
            port_end: None,
        }
    }
}

/// An edge of length and weight one without fixed ports.
pub open spec fn plain_edge(orig: usize, reversed: bool) -> EdgeLayoutData {
    EdgeLayoutData { minlen: 1, weight: 1, reversed, orig, port_start: None, port_end: None }
}

pub type LayoutGraph = OwningGraph<usize, usize, NodeLayoutData, EdgeLayoutData>;

/// The contents of a layout graph.
pub struct LayoutState {
    pub nodes: Map<usize, NodeEntry<usize, NodeLayoutData>>,
    pub edges: Map<usize, EdgeEntry<usize, EdgeLayoutData>>,
    pub next_node: nat,
    pub next_edge: nat,
}

pub open spec fn state_of(graph: &LayoutGraph) -> LayoutState {
    LayoutState {
        nodes: graph.node_map(),
        edges: graph.edge_map(),
        next_node: graph.next_node(),
        next_edge: graph.next_edge(),
    }
}

impl LayoutState {
    /// The contents with one more node.
    pub open spec fn with_node(self, data: NodeLayoutData) -> LayoutState {
        LayoutState {
            nodes: self.nodes.insert(
                self.next_node as usize,
                NodeEntry { edges: Seq::empty(), data },
            ),
            next_node: self.next_node + 1,
            ..self
        }
    }

    /// The contents with one more edge.
    pub open spec fn with_edge(self, from: usize, to: usize, data: EdgeLayoutData) -> LayoutState {
        let id = self.next_edge as usize;
        LayoutState {
            nodes: enlist(enlist(self.nodes, from, id), to, id),
            edges: self.edges.insert(id, EdgeEntry { from, to, data }),
            next_edge: self.next_edge + 1,
            ..self
        }
    }

    /// The contents without an edge.
    pub open spec fn without_edge(self, id: usize) -> LayoutState {
        LayoutState {
            nodes: unlist(unlist(self.nodes, self.edges[id].from, id), self.edges[id].to, id),
            edges: self.edges.remove(id),
            ..self
        }
    }

    /// The contents with other ends of an edge.
    pub open spec fn with_ends(self, id: usize, from: usize, to: usize) -> LayoutState {
        LayoutState {
            nodes: enlist(
                enlist(
                    unlist(unlist(self.nodes, self.edges[id].from, id), self.edges[id].to, id),
                    from,
                    id,
                ),
                to,
                id,
            ),
            edges: self.edges.insert(id, EdgeEntry { from, to, data: self.edges[id].data }),
            ..self
        }
    }

    /// Edges and incident edges fit together, and identifiers have been handed out.
    pub open spec fn is_sound(self) -> bool {
        &&& is_linked(self.nodes, self.edges)
        &&& forall|n: usize| #[trigger] self.nodes.contains_key(n) ==> n < self.next_node
        &&& forall|e: usize| #[trigger] self.edges.contains_key(e) ==> e < self.next_edge
    }
}

/// Rank read as a layer index (negative ranks count as zero).
pub fn layer_of(graph: &LayoutGraph, node: usize) -> (layer: usize)
    requires
        graph.wf(),
        graph.node_map().contains_key(node),
        graph.node_map()[node].data.rank <= usize::MAX,
    ensures
        layer == spec_layer(graph.node_map()[node].data),
{
    let rank: i64 = graph.get_node(node).unwrap().data().rank;
    if rank > 0 {
        rank as usize
    } else {
        0
    }
}

pub open spec fn spec_layer(data: NodeLayoutData) -> int {
    if data.rank > 0 {
        data.rank as int
    } else {
        0
    }
}

impl LayoutState {
    /// Where edges of a list lead from a node.
    pub open spec fn ahead(self, node: usize, list: Seq<usize>) -> Seq<usize>
        decreases list.len(),
    {
        if list.len() == 0 {
            Seq::empty()
        } else {
            let before = self.ahead(node, list.drop_last());
            if self.edges[list.last()].from == node {
                before.push(self.edges[list.last()].to)
            } else {
                before
            }
        }
    }

    /// Where edges of a list come from that lead to a node.
    pub open spec fn back(self, node: usize, list: Seq<usize>) -> Seq<usize>
        decreases list.len(),
    {
        if list.len() == 0 {
            Seq::empty()
        } else {
            let before = self.back(node, list.drop_last());
            if self.edges[list.last()].to == node {
                before.push(self.edges[list.last()].from)
            } else {
                before
            }
        }
    }

    /// The children of a node.
    pub open spec fn children(self, node: usize) -> Seq<usize> {
        if self.nodes.contains_key(node) {
            self.ahead(node, self.nodes[node].edges)
        } else {
            Seq::empty()
        }
    }

    /// The parents of a node.
    pub open spec fn parents(self, node: usize) -> Seq<usize> {
        if self.nodes.contains_key(node) {
            self.back(node, self.nodes[node].edges)
        } else {
            Seq::empty()
        }
    }
}

/// Relatives of a node are nodes, and no more than its edges.
pub proof fn lemma_relatives(state: LayoutState, node: usize, list: Seq<usize>)
    requires
        state.is_sound(),
        forall|i: int| 0 <= i < list.len() ==> state.edges.contains_key(#[trigger] list[i]),
    ensures
        state.ahead(node, list).len() <= list.len(),
        state.back(node, list).len() <= list.len(),
        forall|i: int|
            0 <= i < state.ahead(node, list).len() ==> state.nodes.contains_key(
                #[trigger] state.ahead(node, list)[i],
            ),
        forall|i: int|
            0 <= i < state.back(node, list).len() ==> state.nodes.contains_key(
                #[trigger] state.back(node, list)[i],
            ),
    decreases list.len(),
{
    if list.len() > 0 {
        assert(state.edges.contains_key(list[list.len() - 1]));
        assert forall|i: int| 0 <= i < list.drop_last().len() implies state.edges.contains_key(
            #[trigger] list.drop_last()[i],
        ) by {
            assert(state.edges.contains_key(list[i]));
        }
        lemma_relatives(state, node, list.drop_last());
    }
}

/// The first edge of a node, if it leads away from it, leads to its first child, and if it
/// leads to it, comes from its first parent.
pub proof fn lemma_first_relative(state: LayoutState, node: usize, list: Seq<usize>)
    requires
        list.len() > 0,
    ensures
        state.edges[list[0]].from == node ==> state.ahead(node, list).len() > 0 && state.ahead(
            node,
            list,
        )[0] == state.edges[list[0]].to,
        state.edges[list[0]].to == node ==> state.back(node, list).len() > 0 && state.back(
            node,
            list,
        )[0] == state.edges[list[0]].from,
    decreases list.len(),
{
    if list.len() > 1 {
        lemma_first_relative(state, node, list.drop_last());
    } else {
        assert(state.ahead(node, list.drop_last()) =~= Seq::empty());
        assert(state.back(node, list.drop_last()) =~= Seq::empty());
    }
}

/// The children and the parents of a node.
pub(crate) fn relatives(graph: &LayoutGraph, node: usize) -> (lists: (Vec<usize>, Vec<usize>))
    requires
        graph.wf(),
        state_of(graph).is_sound(),
        graph.node_map().contains_key(node),
    ensures
        lists.0@ == state_of(graph).children(node),
        lists.1@ == state_of(graph).parents(node),
{
    let ghost state = state_of(graph);
    proof {
        graph.lemma_members();
        graph.lemma_linked_is_navigable();
    }
    let list = graph.incident(node);
    let mut ahead: Vec<usize> = Vec::new();
    let mut back: Vec<usize> = Vec::new();
    for i in 0..list.len()
        invariant
            graph.wf(),
            state == state_of(graph),
            state.is_sound(),
            state.nodes.contains_key(node),
            list@ == state.nodes[node].edges,
            ahead@ == state.ahead(node, list@.take(i as int)),
            back@ == state.back(node, list@.take(i as int)),
    {
        let edge: usize = list[i];
        proof {
            graph.lemma_members();
            assert(state.nodes[node].edges.contains(edge));
            assert(graph.spec_edges().contains(edge));
            assert(list@.take(i + 1).drop_last() =~= list@.take(i as int));
        }
        let (from, to): (usize, usize) = (graph.source(edge), graph.target(edge));
        if from == node {
            ahead.push(to);
        }
        if to == node {
            back.push(from);
        }
    }
    assert(list@.take(list@.len() as int) =~= list@);
    (ahead, back)
}

/// The edges of a layout in the order of their identifiers.
pub open spec fn lists_edges(state: LayoutState, ids: Seq<usize>) -> bool {
    &&& forall|i: int, j: int| 0 <= i < j < ids.len() ==> #[trigger] ids[i] < #[trigger] ids[j]
    &&& forall|e: usize| #[trigger] ids.contains(e) <==> state.edges.contains_key(e)
}

/// The nodes of a layout in the order of their identifiers.
pub open spec fn lists_nodes(state: LayoutState, ids: Seq<usize>) -> bool {
    &&& forall|i: int, j: int| 0 <= i < j < ids.len() ==> #[trigger] ids[i] < #[trigger] ids[j]
    &&& forall|v: usize| #[trigger] ids.contains(v) <==> state.nodes.contains_key(v)
}

} // verus!
