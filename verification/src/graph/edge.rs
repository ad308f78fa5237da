//! Edge views for immutable and mutable graph access.
use crate::graph::node::{Node, NodeMut};
use crate::graph::{Graph, GraphMut};
use crate::registry::same_id;
use vstd::prelude::*;

verus! {

/// Typed edge handle trait for immutable graph references.
pub trait Edge<'graph>: Sized {
    type Graph: Graph + 'graph;

    spec fn spec_id(&self) -> <Self::Graph as Graph>::EdgeId;

    spec fn spec_graph(&self) -> &'graph Self::Graph;

    fn new(id: <Self::Graph as Graph>::EdgeId, graph: &'graph Self::Graph) -> (edge: Self)
        ensures
            edge.spec_id() == id,
            edge.spec_graph() == graph,
    ;

    /// Returns this edge identifier.
    fn id(&self) -> (id: <Self::Graph as Graph>::EdgeId)
        ensures
            id == self.spec_id(),
    ;

    /// Returns the backing graph reference for this edge.
    fn graph(&self) -> (graph: &'graph Self::Graph)
        ensures
            graph == self.spec_graph(),
    ;

    /// Returns the source node's id for this edge.
    fn from_id(&self) -> (node: <Self::Graph as Graph>::NodeId)
        requires
            self.spec_graph().is_intact(),
            self.spec_graph().spec_edges().contains(self.spec_id()),
        ensures
            node == self.spec_graph().spec_from(self.spec_id()),
    {
        self.graph().source(self.id())
    }

    /// Returns the destination node's id for this edge.
    fn to_id(&self) -> (node: <Self::Graph as Graph>::NodeId)
        requires
            self.spec_graph().is_intact(),
            self.spec_graph().spec_edges().contains(self.spec_id()),
        ensures
            node == self.spec_graph().spec_to(self.spec_id()),
    {
        self.graph().target(self.id())
    }

    /// Returns the source node for this edge
    fn from<N: Node<'graph, Graph = Self::Graph>>(&self) -> (node: N)
        requires
            self.spec_graph().is_intact(),
            self.spec_graph().spec_edges().contains(self.spec_id()),
        ensures
            node.spec_id() == self.spec_graph().spec_from(self.spec_id()),
            node.spec_graph() == self.spec_graph(),
    {
        N::new(self.from_id(), self.graph())
    }

    /// Returns the destination node for this edge
    fn to<N: Node<'graph, Graph = Self::Graph>>(&self) -> (node: N)
        requires
            self.spec_graph().is_intact(),
            self.spec_graph().spec_edges().contains(self.spec_id()),
        ensures
            node.spec_id() == self.spec_graph().spec_to(self.spec_id()),
            node.spec_graph() == self.spec_graph(),
    {
        N::new(self.to_id(), self.graph())
    }

    /// Returns `true` when this edge starts and ends at the same node.
    fn is_loop(&self) -> (b: bool)
        requires
            self.spec_graph().is_intact(),
            self.spec_graph().spec_edges().contains(self.spec_id()),
        ensures
            b == (self.spec_graph().spec_from(self.spec_id()) == self.spec_graph().spec_to(
                self.spec_id(),
            )),
    {
        same_id(self.from_id(), self.to_id())
    }
}

/// Typed edge handle trait for mutable graph references.
pub trait EdgeMut<'graph>: Sized {
    type Graph: GraphMut + 'graph;

    spec fn spec_id(&self) -> <Self::Graph as Graph>::EdgeId;

    /// The graph in its present state.
    spec fn spec_graph(&self) -> Self::Graph;

    fn new(id: <Self::Graph as Graph>::EdgeId, graph: &'graph mut Self::Graph) -> (edge: Self)
        ensures
            edge.spec_id() == id,
            edge.spec_graph() == *old(graph),
    ;

    /// Returns this edge identifier.
    fn id(&self) -> (id: <Self::Graph as Graph>::EdgeId)
        ensures
            id == self.spec_id(),
    ;

    /// Returns the backing graph reference for this edge.
    fn graph(&mut self) -> (graph: &mut Self::Graph)
        ensures
            *graph == old(self).spec_graph(),
            final(self).spec_graph() == *final(graph),
            final(self).spec_id() == old(self).spec_id(),
    ;

    /// Returns the source node's id for this edge.
    fn from_id(&self) -> (node: <Self::Graph as Graph>::NodeId)
        requires
            self.spec_graph().is_intact(),
            self.spec_graph().spec_edges().contains(self.spec_id()),
        ensures
            node == self.spec_graph().spec_from(self.spec_id()),
    ;

    /// Returns the destination node's id for this edge.
    fn to_id(&self) -> (node: <Self::Graph as Graph>::NodeId)
        requires
            self.spec_graph().is_intact(),
            self.spec_graph().spec_edges().contains(self.spec_id()),
        ensures
            node == self.spec_graph().spec_to(self.spec_id()),
    ;

    /// Returns mutable access to the source node for this edge.
    fn from<'a, N: NodeMut<'a, Graph = Self::Graph>>(&'a mut self) -> (node: N) where 'graph: 'a
        requires
            old(self).spec_graph().is_intact(),
            old(self).spec_graph().spec_edges().contains(old(self).spec_id()),
        ensures
            node.spec_id() == old(self).spec_graph().spec_from(old(self).spec_id()),
            node.spec_graph() == old(self).spec_graph(),
    {
        let id = self.from_id();
        N::new(id, self.graph())
    }

    /// Returns mutable access to the destination node for this edge.
    fn to<'a, N: NodeMut<'a, Graph = Self::Graph>>(&'a mut self) -> (node: N) where 'graph: 'a
        requires
            old(self).spec_graph().is_intact(),
            old(self).spec_graph().spec_edges().contains(old(self).spec_id()),
        ensures
            node.spec_id() == old(self).spec_graph().spec_to(old(self).spec_id()),
            node.spec_graph() == old(self).spec_graph(),
    {
        let id = self.to_id();
        N::new(id, self.graph())
    }

    /// Redirects this edge to originate from `node` instead of its current source.
    fn set_from(&mut self, node: <Self::Graph as Graph>::NodeId)
        requires
            old(self).spec_graph().is_intact(),
            old(self).spec_graph().spec_edges().contains(old(self).spec_id()),
        ensures
            final(self).spec_id() == old(self).spec_id(),
            source_changed(
                &old(self).spec_graph(),
                &final(self).spec_graph(),
                old(self).spec_id(),
                node,
            ),
    ;

    /// Returns an immutable view of this edge handle.
    fn as_ref<'a, E: Edge<'a, Graph = Self::Graph>>(&'a mut self) -> (edge: E) where 'graph: 'a
        ensures
            edge.spec_id() == old(self).spec_id(),
            *edge.spec_graph() == old(self).spec_graph(),
    {
        let id = self.id();
        E::new(id, &*self.graph())
    }
}

/// `after` is `before` with `node` as the source of `edge`.
pub open spec fn source_changed<G: Graph>(
    before: &G,
    after: &G,
    edge: G::EdgeId,
    node: G::NodeId,
) -> bool {
    &&& after.is_intact()
    &&& after.spec_nodes() == before.spec_nodes()
    &&& after.spec_edges() == before.spec_edges()
    &&& forall|e: G::EdgeId| #[trigger]
        after.spec_from(e) == if e == edge {
            node
        } else {
            before.spec_from(e)
        }
    &&& forall|e: G::EdgeId| #[trigger] after.spec_to(e) == before.spec_to(e)
    &&& forall|n: G::NodeId| #[trigger] after.spec_incident(n) == before.spec_incident(n)
}

} // verus!
