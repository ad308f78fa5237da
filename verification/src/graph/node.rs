//! Node views and traversals over the relations of a node.
use crate::graph::{is_navigable, with_id, without_id, Graph, GraphMut};
use crate::registry::Identifier;
use vstd::prelude::*;

verus! {

/// The end of an edge at which a traversal arrives.
#[derive(PartialEq, Eq, Structural, Clone, Copy)]
pub enum End {
    Source,
    Target,
}

/// Which of the incident edges of a node a traversal takes, and where they lead.
pub trait TraversalMode {
    /// The end to which an edge between the indices `from` and `to` leads a traversal at
    /// the index `node`; `None` if the traversal does not take it.
    spec fn spec_end(node: usize, from: usize, to: usize) -> Option<End>;

    fn end(node: usize, from: usize, to: usize) -> (end: Option<End>)
        ensures
            end == Self::spec_end(node, from, to),
    ;
}

/// Mode selecting outgoing child traversal.
pub struct ChildMode;

/// Mode selecting incoming parent traversal.
pub struct ParentMode;

/// Mode selecting all incident edges.
pub struct EdgeMode;

impl TraversalMode for ChildMode {
    open spec fn spec_end(node: usize, from: usize, to: usize) -> Option<End> {
        if node == from {
            Some(End::Target)
        } else {
            None
        }
    }

    fn end(node: usize, from: usize, to: usize) -> (end: Option<End>) {
        if node == from {
            Some(End::Target)
        } else {
            None
        }
    }
}

impl TraversalMode for ParentMode {
    open spec fn spec_end(node: usize, from: usize, to: usize) -> Option<End> {
        if node == to {
            Some(End::Source)
        } else {
            None
        }
    }

    fn end(node: usize, from: usize, to: usize) -> (end: Option<End>) {
        if node == to {
            Some(End::Source)
        } else {
            None
        }
    }
}

impl TraversalMode for EdgeMode {
    open spec fn spec_end(node: usize, from: usize, to: usize) -> Option<End> {
        if node == from {
            Some(End::Target)
        } else {
            Some(End::Source)
        }
    }

    fn end(node: usize, from: usize, to: usize) -> (end: Option<End>) {
        if node == from {
            Some(End::Target)
        } else {
            Some(End::Source)
        }
    }
}

/// Where `edge` leads a traversal at `node`; `None` if the traversal does not take it.
pub open spec fn step_over<M: TraversalMode, G: Graph>(
    graph: &G,
    node: G::NodeId,
    edge: G::EdgeId,
) -> Option<G::NodeId> {
    let (from, to) = (graph.spec_from(edge), graph.spec_to(edge));
    match M::spec_end(node.spec_index(), from.spec_index(), to.spec_index()) {
        Some(End::Source) => Some(from),
        Some(End::Target) => Some(to),
        None => None,
    }
}

/// The edges of the list `edges` that a traversal at `node` takes, each with the node
/// that it leads to.
pub open spec fn relations<M: TraversalMode, G: Graph>(
    graph: &G,
    node: G::NodeId,
    edges: Seq<G::EdgeId>,
) -> Seq<(G::EdgeId, G::NodeId)>
    decreases edges.len(),
{
    if edges.len() == 0 {
        Seq::empty()
    } else {
        let rest = relations::<M, G>(graph, node, edges.drop_last());
        let edge = edges.last();
        match step_over::<M, G>(graph, node, edge) {
            Some(other) => rest.push((edge, other)),
            None => rest,
        }
    }
}

/// The relations are those of the single edges.
pub proof fn lemma_relations<M: TraversalMode, G: Graph>(
    graph: &G,
    node: G::NodeId,
    edges: Seq<G::EdgeId>,
)
    ensures
        forall|edge: G::EdgeId, other: G::NodeId| #[trigger]
            relations::<M, G>(graph, node, edges).contains((edge, other)) <==> edges.contains(edge)
                && step_over::<M, G>(graph, node, edge) == Some(other),
    decreases edges.len(),
{
    if edges.len() > 0 {
        let rest = relations::<M, G>(graph, node, edges.drop_last());
        let all = relations::<M, G>(graph, node, edges);
        lemma_relations::<M, G>(graph, node, edges.drop_last());
        assert forall|edge: G::EdgeId, other: G::NodeId| #[trigger]
            all.contains((edge, other)) <==> edges.contains(edge) && step_over::<M, G>(graph, node, edge) == Some(other) by {
            let item = (edge, other);
            if rest.contains(item) {
                assert(all[rest.index_of(item)] == item);
                assert(edges.drop_last().contains(edge));
                assert(edges[edges.drop_last().index_of(edge)] == edge);
            }
            if all.contains(item) && !rest.contains(item) {
                let k = all.index_of(item);
                if k < rest.len() {
                    assert(rest[k] == item);
                }
                assert(edges[edges.len() - 1] == edge);
            }
            if edges.contains(edge) && step_over::<M, G>(graph, node, edge) == Some(other) {
                let i = edges.index_of(edge);
                if i < edges.len() - 1 {
                    assert(edges.drop_last()[i] == edge);
                    assert(rest.contains(item));
                } else {
                    assert(all[rest.len() as int] == item);
                }
            }
        }
    }
}

/// Distinct edges make distinct relations.
pub proof fn lemma_relations_distinct<M: TraversalMode, G: Graph>(
    graph: &G,
    node: G::NodeId,
    edges: Seq<G::EdgeId>,
)
    requires
        edges.no_duplicates(),
    ensures
        forall|i: int, j: int|
            0 <= i < j < relations::<M, G>(graph, node, edges).len() ==> (#[trigger] relations::<
                M,
                G,
            >(graph, node, edges)[i]).0 != (#[trigger] relations::<M, G>(graph, node, edges)[j]).0,
    decreases edges.len(),
{
    if edges.len() > 0 {
        let front = edges.drop_last();
        let rest = relations::<M, G>(graph, node, front);
        let all = relations::<M, G>(graph, node, edges);
        lemma_relations_distinct::<M, G>(graph, node, front);
        lemma_relations::<M, G>(graph, node, front);
        assert forall|i: int, j: int| 0 <= i < j < all.len() implies (#[trigger] all[i]).0 != (
        #[trigger] all[j]).0 by {
            if j < rest.len() {
                assert(rest[i].0 != rest[j].0);
            } else {
                let (edge, other) = rest[i];
                assert(rest.contains((edge, other)));
                assert(front.contains(edge));
                let k = front.index_of(edge);
                assert(edges[k] == edge);
                assert(edges[edges.len() - 1] == all[j].0);
            }
        }
    }
}

/// Walks the incident edges of `node`, and keeps those that the mode takes.
pub(crate) fn related<M: TraversalMode, G: Graph>(graph: &G, node: G::NodeId) -> (items: Vec<
    (G::EdgeId, G::NodeId),
>)
    requires
        is_navigable(graph),
        graph.spec_nodes().contains(node),
    ensures
        items@ == relations::<M, G>(graph, node, graph.spec_incident(node)),
{
    let edges = graph.incident(node);
    let mut items: Vec<(G::EdgeId, G::NodeId)> = Vec::new();
    for i in 0..edges.len()
        invariant
            is_navigable(graph),
            graph.spec_nodes().contains(node),
            edges@ == graph.spec_incident(node),
            items@ == relations::<M, G>(graph, node, edges@.subrange(0, i as int)),
    {
        let edge = edges[i];
        assert(graph.spec_incident(node).contains(edge));
        assert(edges@.subrange(0, i + 1).drop_last() =~= edges@.subrange(0, i as int));
        let (from, to) = (graph.source(edge), graph.target(edge));
        match M::end(node.to_usize(), from.to_usize(), to.to_usize()) {
            Some(End::Source) => {
                items.push((edge, from));
            },
            Some(End::Target) => {
                items.push((edge, to));
            },
            None => {},
        }
    }
    assert(edges@.subrange(0, edges@.len() as int) =~= edges@);
    items
}

/// One traversal item containing both edge and opposite-node information.
pub struct EdgeItem<'graph, G: Graph> {
    pub(crate) graph: &'graph G,
    pub(crate) edge: G::EdgeId,
    pub(crate) node: G::NodeId,
}

impl<'graph, G: Graph> EdgeItem<'graph, G> {
    pub closed spec fn spec_graph(&self) -> &'graph G {
        self.graph
    }

    pub closed spec fn spec_edge(&self) -> G::EdgeId {
        self.edge
    }

    pub closed spec fn spec_node(&self) -> G::NodeId {
        self.node
    }

    /// Returns the traversed edge identifier.
    pub fn edge_id(&self) -> (id: G::EdgeId)
        ensures
            id == self.spec_edge(),
    {
        self.edge
    }

    /// Returns the opposite-node identifier for this traversal step.
    pub fn node_id(&self) -> (id: G::NodeId)
        ensures
            id == self.spec_node(),
    {
        self.node
    }

    /// Returns the opposite node handle for this traversal step.
    pub fn node<N: Node<'graph, Graph = G>>(&self) -> (node: N)
        ensures
            node.spec_id() == self.spec_node(),
            node.spec_graph() == self.spec_graph(),
    {
        N::new(self.node, self.graph)
    }

    /// Returns the traversed edge handle for this step.
    pub fn edge<E: crate::graph::edge::Edge<'graph, Graph = G>>(&self) -> (edge: E)
        ensures
            edge.spec_id() == self.spec_edge(),
            edge.spec_graph() == self.spec_graph(),
    {
        E::new(self.edge, self.graph)
    }
}

/// The items stand for the pairs `pairs` of `graph`.
pub open spec fn items_are<'graph, G: Graph>(
    items: Seq<EdgeItem<'graph, G>>,
    graph: &'graph G,
    pairs: Seq<(G::EdgeId, G::NodeId)>,
) -> bool {
    &&& items.len() == pairs.len()
    &&& forall|i: int|
        #![trigger items[i]]
        0 <= i < items.len() ==> items[i].spec_graph() == graph && items[i].spec_edge()
            == pairs[i].0 && items[i].spec_node() == pairs[i].1
}

fn wrap_items<'graph, G: Graph>(graph: &'graph G, pairs: Vec<(G::EdgeId, G::NodeId)>) -> (items:
    Vec<EdgeItem<'graph, G>>)
    ensures
        items_are(items@, graph, pairs@),
{
    let mut items: Vec<EdgeItem<'graph, G>> = Vec::new();
    for i in 0..pairs.len()
        invariant
            items@.len() == i,
            forall|j: int|
                #![trigger items@[j]]
                0 <= j < i ==> items@[j].spec_graph() == graph && items@[j].spec_edge()
                    == pairs@[j].0 && items@[j].spec_node() == pairs@[j].1,
    {
        items.push(EdgeItem { graph, edge: pairs[i].0, node: pairs[i].1 });
    }
    items
}

/// Typed node handle trait for immutable graph references.
pub trait Node<'graph>: Sized {
    type Graph: Graph + 'graph;

    spec fn spec_id(&self) -> <Self::Graph as Graph>::NodeId;

    spec fn spec_graph(&self) -> &'graph Self::Graph;

    fn new(id: <Self::Graph as Graph>::NodeId, graph: &'graph Self::Graph) -> (node: Self)
        ensures
            node.spec_id() == id,
            node.spec_graph() == graph,
    ;

    /// Returns this node identifier.
    fn id(&self) -> (id: <Self::Graph as Graph>::NodeId)
        ensures
            id == self.spec_id(),
    ;

    /// Returns the backing graph reference for this node.
    fn graph(&self) -> (graph: &'graph Self::Graph)
        ensures
            graph == self.spec_graph(),
    ;

    /// Retrieve the ids of all edges incident to this node.
    fn edge_ids(&self) -> (edges: &'graph Vec<<Self::Graph as Graph>::EdgeId>)
        requires
            is_navigable(self.spec_graph()),
            self.spec_graph().spec_nodes().contains(self.spec_id()),
        ensures
            edges@ == self.spec_graph().spec_incident(self.spec_id()),
    {
        self.graph().incident(self.id())
    }

    /// Returns the number of incident edges for this node.
    fn edge_count(&self) -> (count: usize)
        requires
            is_navigable(self.spec_graph()),
            self.spec_graph().spec_nodes().contains(self.spec_id()),
        ensures
            count == self.spec_graph().spec_incident(self.spec_id()).len(),
    {
        self.edge_ids().len()
    }

    /// Returns `true` if this node has no connected edges.
    fn is_leaf(&self) -> (b: bool)
        requires
            is_navigable(self.spec_graph()),
            self.spec_graph().spec_nodes().contains(self.spec_id()),
        ensures
            b == (self.spec_graph().spec_incident(self.spec_id()).len() == 0),
    {
        self.edge_count() == 0
    }

    /// All incident edges.
    fn edges(&self) -> (items: Vec<EdgeItem<'graph, Self::Graph>>)
        requires
            is_navigable(self.spec_graph()),
            self.spec_graph().spec_nodes().contains(self.spec_id()),
        ensures
            items_are(
                items@,
                self.spec_graph(),
                relations::<EdgeMode, Self::Graph>(
                    self.spec_graph(),
                    self.spec_id(),
                    self.spec_graph().spec_incident(self.spec_id()),
                ),
            ),
    {
        wrap_items(
            self.graph(),
            related::<EdgeMode, Self::Graph>(self.graph(), self.id()),
        )
    }

    /// Child relationships for outgoing edges.
    fn children(&self) -> (items: Vec<EdgeItem<'graph, Self::Graph>>)
        requires
            is_navigable(self.spec_graph()),
            self.spec_graph().spec_nodes().contains(self.spec_id()),
        ensures
            items_are(
                items@,
                self.spec_graph(),
                relations::<ChildMode, Self::Graph>(
                    self.spec_graph(),
                    self.spec_id(),
                    self.spec_graph().spec_incident(self.spec_id()),
                ),
            ),
    {
        wrap_items(
            self.graph(),
            related::<ChildMode, Self::Graph>(self.graph(), self.id()),
        )
    }

    /// Parent relationships for incoming edges.
    fn parents(&self) -> (items: Vec<EdgeItem<'graph, Self::Graph>>)
        requires
            is_navigable(self.spec_graph()),
            self.spec_graph().spec_nodes().contains(self.spec_id()),
        ensures
            items_are(
                items@,
                self.spec_graph(),
                relations::<ParentMode, Self::Graph>(
                    self.spec_graph(),
                    self.spec_id(),
                    self.spec_graph().spec_incident(self.spec_id()),
                ),
            ),
    {
        wrap_items(
            self.graph(),
            related::<ParentMode, Self::Graph>(self.graph(), self.id()),
        )
    }
}

/// Typed node handle trait for mutable graph references.
pub trait NodeMut<'graph>: Sized {
    type Graph: GraphMut + 'graph;

    spec fn spec_id(&self) -> <Self::Graph as Graph>::NodeId;

    /// The graph in its present state.
    spec fn spec_graph(&self) -> Self::Graph;

    fn new(id: <Self::Graph as Graph>::NodeId, graph: &'graph mut Self::Graph) -> (node: Self)
        ensures
            node.spec_id() == id,
            node.spec_graph() == *old(graph),
    ;

    /// Returns this node identifier.
    fn id(&self) -> (id: <Self::Graph as Graph>::NodeId)
        ensures
            id == self.spec_id(),
    ;

    /// Returns the backing graph reference for this node.
    fn graph(&mut self) -> (graph: &mut Self::Graph)
        ensures
            *graph == old(self).spec_graph(),
            final(self).spec_graph() == *final(graph),
            final(self).spec_id() == old(self).spec_id(),
    ;

    /// Retrieve the ids of all edges incident to this node.
    fn edge_ids(&self) -> (edges: &Vec<<Self::Graph as Graph>::EdgeId>)
        requires
            self.spec_graph().is_intact(),
            self.spec_graph().spec_nodes().contains(self.spec_id()),
        ensures
            edges@ == self.spec_graph().spec_incident(self.spec_id()),
    ;

    /// Returns the number of incident edges for this node.
    fn edge_count(&self) -> (count: usize)
        requires
            self.spec_graph().is_intact(),
            self.spec_graph().spec_nodes().contains(self.spec_id()),
        ensures
            count == self.spec_graph().spec_incident(self.spec_id()).len(),
    {
        self.edge_ids().len()
    }

    /// Registers an edge as incident to this node.
    fn add_edge_id(&mut self, edge: <Self::Graph as Graph>::EdgeId)
        requires
            old(self).spec_graph().is_intact(),
            old(self).spec_graph().spec_nodes().contains(old(self).spec_id()),
        ensures
            final(self).spec_id() == old(self).spec_id(),
            lists_changed(
                &old(self).spec_graph(),
                &final(self).spec_graph(),
                old(self).spec_id(),
                with_id(old(self).spec_graph().spec_incident(old(self).spec_id()), edge),
            ),
    ;

    /// Removes an edge from this node's incident edges.
    fn remove_edge_id(&mut self, edge: <Self::Graph as Graph>::EdgeId)
        requires
            old(self).spec_graph().is_intact(),
            old(self).spec_graph().spec_nodes().contains(old(self).spec_id()),
        ensures
            final(self).spec_id() == old(self).spec_id(),
            lists_changed(
                &old(self).spec_graph(),
                &final(self).spec_graph(),
                old(self).spec_id(),
                without_id(old(self).spec_graph().spec_incident(old(self).spec_id()), edge),
            ),
    ;

    /// Returns a "weaker" immutable view of this mutable node handle.
    fn as_ref<'a, N: Node<'a, Graph = Self::Graph>>(&'a mut self) -> (node: N) where 'graph: 'a
        ensures
            node.spec_id() == old(self).spec_id(),
            *node.spec_graph() == old(self).spec_graph(),
    {
        let id = self.id();
        N::new(id, &*self.graph())
    }
}

/// `after` is `before` with the incident edges of `node` replaced by `edges`.
pub open spec fn lists_changed<G: Graph>(
    before: &G,
    after: &G,
    node: G::NodeId,
    edges: Seq<G::EdgeId>,
) -> bool {
    &&& after.is_intact()
    &&& after.spec_nodes() == before.spec_nodes()
    &&& after.spec_edges() == before.spec_edges()
    &&& forall|e: G::EdgeId| #[trigger] after.spec_from(e) == before.spec_from(e)
    &&& forall|e: G::EdgeId| #[trigger] after.spec_to(e) == before.spec_to(e)
    &&& forall|n: G::NodeId| #[trigger]
        after.spec_incident(n) == if n == node {
            edges
        } else {
            before.spec_incident(n)
        }
}

} // verus!
