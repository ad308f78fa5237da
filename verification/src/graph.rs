//! Graph data structure with typed node and edge identifiers.
//!
//! [`Graph`] is the read-only view that traversals and analyses work on;
//! [`owning::OwningGraph`] stores payloads beside the structure and hands out typed
//! reference wrappers to navigate and mutate it.
use crate::fx;
use crate::graph::node::{relations, ChildMode, EdgeMode, TraversalMode};
use crate::graph::walk::{
    is_walk, lemma_extend, lemma_trivial_walk, reaches, step_at, walk_between,
};
use crate::registry::{lemma_id_injective, Identifier};
use rustc_hash::FxHashSet;
use std::marker::PhantomData;
use vstd::prelude::*;

pub mod adjacency;
pub mod analysis;
pub mod edge;
pub mod laws;
pub mod node;
pub mod owning;
pub mod parse;
pub mod parse_laws;
pub mod search_laws;
pub mod walk;

pub use edge::{Edge, EdgeMut};
pub use node::{Node, NodeMut};
pub use parse::TestGraph;
pub use rustc_hash::FxBuildHasher;

verus! {

/// A typed graph container.
pub trait Graph: Sized {
    type NodeId: Identifier;

    type EdgeId: Identifier;

    /// The representation is intact.
    spec fn is_intact(&self) -> bool;

    /// The nodes in the order of their identifiers.
    spec fn spec_nodes(&self) -> Seq<Self::NodeId>;

    /// The edges in the order of their identifiers.
    spec fn spec_edges(&self) -> Seq<Self::EdgeId>;

    /// The node at which `edge` starts.
    spec fn spec_from(&self, edge: Self::EdgeId) -> Self::NodeId;

    /// The node at which `edge` ends.
    spec fn spec_to(&self, edge: Self::EdgeId) -> Self::NodeId;

    /// The edges that `node` lists as incident.
    spec fn spec_incident(&self, node: Self::NodeId) -> Seq<Self::EdgeId>;

    /// All nodes in insertion identifier order.
    fn node_ids(&self) -> (ids: Vec<Self::NodeId>)
        requires
            self.is_intact(),
        ensures
            ids@ == self.spec_nodes(),
    ;

    /// All edges in insertion identifier order.
    fn edge_ids(&self) -> (ids: Vec<Self::EdgeId>)
        requires
            self.is_intact(),
        ensures
            ids@ == self.spec_edges(),
    ;

    /// Whether the graph has a node with this identifier.
    fn contains_node(&self, node: Self::NodeId) -> (found: bool)
        requires
            self.is_intact(),
        ensures
            found == self.spec_nodes().contains(node),
    ;

    /// Whether the graph has an edge with this identifier.
    fn contains_edge(&self, edge: Self::EdgeId) -> (found: bool)
        requires
            self.is_intact(),
        ensures
            found == self.spec_edges().contains(edge),
    ;

    /// The source node of `edge`.
    fn source(&self, edge: Self::EdgeId) -> (node: Self::NodeId)
        requires
            self.is_intact(),
            self.spec_edges().contains(edge),
        ensures
            node == self.spec_from(edge),
    ;

    /// The destination node of `edge`.
    fn target(&self, edge: Self::EdgeId) -> (node: Self::NodeId)
        requires
            self.is_intact(),
            self.spec_edges().contains(edge),
        ensures
            node == self.spec_to(edge),
    ;

    /// The edges incident to `node`.
    fn incident(&self, node: Self::NodeId) -> (edges: &Vec<Self::EdgeId>)
        requires
            self.is_intact(),
            self.spec_nodes().contains(node),
        ensures
            edges@ == self.spec_incident(node),
    ;
}

/// Depth-first walks over a graph.
pub trait Traverse: Graph {
    /// A depth-first walk along outgoing edges that starts at `root`.
    fn dfs(&self, root: Self::NodeId) -> (walk: DfsIter<'_, Directed, Self>)
        requires
            is_navigable(self),
            self.spec_nodes().contains(root),
        ensures
            walk.starts_at(self, root),
    {
        DfsIter::start(self, root)
    }

    /// A depth-first walk that starts at `root` and follows edges in both directions.
    fn undirected_dfs(&self, root: Self::NodeId) -> (walk: DfsIter<'_, Undirected, Self>)
        requires
            is_navigable(self),
            self.spec_nodes().contains(root),
        ensures
            walk.starts_at(self, root),
    {
        DfsIter::start(self, root)
    }
}

impl<G: Graph> Traverse for G {
}

/// Every incident edge of a node is an edge of the graph, and leads between its nodes.
pub open spec fn is_navigable<G: Graph>(graph: &G) -> bool {
    &&& graph.is_intact()
    &&& forall|node: G::NodeId, edge: G::EdgeId|
        graph.spec_nodes().contains(node) && #[trigger] graph.spec_incident(node).contains(edge)
            ==> {
            &&& graph.spec_edges().contains(edge)
            &&& graph.spec_nodes().contains(graph.spec_from(edge))
            &&& graph.spec_nodes().contains(graph.spec_to(edge))
        }
}

/// The mutable half of [`Graph`]: structural edits.
pub trait GraphMut: Graph {
    /// Redirects `edge` to originate from `node` instead of its current source.
    fn set_source(&mut self, edge: Self::EdgeId, node: Self::NodeId)
        requires
            old(self).is_intact(),
            old(self).spec_edges().contains(edge),
        ensures
            final(self).is_intact(),
            final(self).spec_nodes() == old(self).spec_nodes(),
            final(self).spec_edges() == old(self).spec_edges(),
            forall|e: Self::EdgeId| #[trigger]
                final(self).spec_from(e) == if e == edge {
                    node
                } else {
                    old(self).spec_from(e)
                },
            forall|e: Self::EdgeId| #[trigger] final(self).spec_to(e) == old(self).spec_to(e),
            forall|n: Self::NodeId| #[trigger]
                final(self).spec_incident(n) == old(self).spec_incident(n),
    ;

    /// Registers `edge` as incident to `node`.
    fn add_incident(&mut self, node: Self::NodeId, edge: Self::EdgeId)
        requires
            old(self).is_intact(),
            old(self).spec_nodes().contains(node),
        ensures
            final(self).is_intact(),
            final(self).spec_nodes() == old(self).spec_nodes(),
            final(self).spec_edges() == old(self).spec_edges(),
            forall|e: Self::EdgeId| #[trigger] final(self).spec_from(e) == old(self).spec_from(e),
            forall|e: Self::EdgeId| #[trigger] final(self).spec_to(e) == old(self).spec_to(e),
            forall|n: Self::NodeId| #[trigger]
                final(self).spec_incident(n) == if n == node {
                    with_id(old(self).spec_incident(n), edge)
                } else {
                    old(self).spec_incident(n)
                },
    ;

    /// Removes `edge` from the incident edges of `node`.
    fn remove_incident(&mut self, node: Self::NodeId, edge: Self::EdgeId)
        requires
            old(self).is_intact(),
            old(self).spec_nodes().contains(node),
        ensures
            final(self).is_intact(),
            final(self).spec_nodes() == old(self).spec_nodes(),
            final(self).spec_edges() == old(self).spec_edges(),
            forall|e: Self::EdgeId| #[trigger] final(self).spec_from(e) == old(self).spec_from(e),
            forall|e: Self::EdgeId| #[trigger] final(self).spec_to(e) == old(self).spec_to(e),
            forall|n: Self::NodeId| #[trigger]
                final(self).spec_incident(n) == if n == node {
                    without_id(old(self).spec_incident(n), edge)
                } else {
                    old(self).spec_incident(n)
                },
    ;

    /// Merges `remove` into `keep` at the graph-structural level.
    ///
    /// - Removes `direct_edge` (the edge from `keep` to `remove`) from both nodes'
    ///   incident edges.
    /// - Lets every outgoing edge of `remove` originate from `keep` instead, in the edge
    ///   and in the incident edges of both nodes.
    ///
    /// What becomes of the payloads, and of `remove` itself, is left to the caller. A node
    /// that is merged into itself loses its outgoing edges from its incident edges.
    fn merge_nodes(&mut self, keep: Self::NodeId, remove: Self::NodeId, direct_edge: Self::EdgeId)
        requires
            is_navigable(old(self)),
            old(self).spec_nodes().contains(keep),
            old(self).spec_nodes().contains(remove),
            old(self).spec_incident(remove).no_duplicates(),
        ensures
            final(self).is_intact(),
            final(self).spec_nodes() == old(self).spec_nodes(),
            final(self).spec_edges() == old(self).spec_edges(),
            forall|e: Self::EdgeId| #[trigger]
                final(self).spec_from(e) == if rehomed(old(self), remove, direct_edge).contains(e) {
                    keep
                } else {
                    old(self).spec_from(e)
                },
            forall|e: Self::EdgeId| #[trigger] final(self).spec_to(e) == old(self).spec_to(e),
            forall|n: Self::NodeId| #[trigger]
                final(self).spec_incident(n) == if n == keep && keep != remove {
                    with_ids(
                        without_id(old(self).spec_incident(keep), direct_edge),
                        rehomed(old(self), remove, direct_edge),
                    )
                } else if n == remove {
                    without_ids(
                        without_id(old(self).spec_incident(remove), direct_edge),
                        rehomed(old(self), remove, direct_edge),
                    )
                } else {
                    old(self).spec_incident(n)
                },
    {
        let ghost before = *self;
        self.remove_incident(keep, direct_edge);
        self.remove_incident(remove, direct_edge);
        let ghost start = *self;
        let ghost list = without_id(before.spec_incident(remove), direct_edge);
        proof {
            lemma_without_id(before.spec_incident(remove), direct_edge);
            lemma_without_id(list, direct_edge);
            assert(start.spec_incident(remove) == list);
        }
        let mut outgoing: Vec<Self::EdgeId> = Vec::new();
        let incident = self.incident(remove);
        for i in 0..incident.len()
            invariant
                self.is_intact(),
                *self == start,
                is_navigable(&before),
                before.spec_nodes().contains(remove),
                incident@ == list,
                start.spec_edges() == before.spec_edges(),
                forall|e: Self::EdgeId| #[trigger] start.spec_from(e) == before.spec_from(e),
                forall|e: Self::EdgeId| #[trigger]
                    list.contains(e) ==> before.spec_incident(remove).contains(e),
                outgoing@ == leaving(&before, remove, list.subrange(0, i as int)),
        {
            let edge = incident[i];
            proof {
                assert(list.contains(edge));
                assert(list.subrange(0, i + 1).drop_last() =~= list.subrange(0, i as int));
            }
            if crate::registry::same_id(self.source(edge), remove) {
                outgoing.push(edge);
            }
        }
        assert(list.subrange(0, list.len() as int) =~= list);
        let ghost all = outgoing@;
        proof {
            lemma_leaving(&before, remove, list);
            lemma_leaving_once(&before, remove, list);
        }
        for i in 0..outgoing.len()
            invariant
                self.is_intact(),
                outgoing@ == all,
                all.no_duplicates(),
                list.no_duplicates(),
                start.spec_incident(remove) == list,
                forall|e: Self::EdgeId| #[trigger] all.contains(e) ==> list.contains(e),
                self.spec_nodes() == before.spec_nodes(),
                self.spec_edges() == before.spec_edges(),
                before.spec_nodes().contains(keep),
                before.spec_nodes().contains(remove),
                forall|e: Self::EdgeId| #[trigger] all.contains(e) ==> before.spec_edges().contains(e),
                forall|e: Self::EdgeId| #[trigger]
                    self.spec_from(e) == if all.subrange(0, i as int).contains(e) {
                        keep
                    } else {
                        before.spec_from(e)
                    },
                forall|e: Self::EdgeId| #[trigger] self.spec_to(e) == before.spec_to(e),
                forall|n: Self::NodeId| #[trigger]
                    self.spec_incident(n) == if n == keep && keep != remove {
                        with_ids(start.spec_incident(keep), all.subrange(0, i as int))
                    } else if n == remove {
                        without_ids(start.spec_incident(remove), all.subrange(0, i as int))
                    } else {
                        before.spec_incident(n)
                    },
        {
            let edge = outgoing[i];
            proof {
                assert(all.contains(edge));
                let (a, b) = (all.subrange(0, i as int), all.subrange(0, i + 1));
                assert(b.drop_last() =~= a);
                assert(b =~= a.push(edge));
                assert forall|e: Self::EdgeId| #[trigger] b.contains(e) <==> a.contains(e) || e
                    == edge by {
                    if a.contains(e) {
                        assert(b[a.index_of(e)] == e);
                    }
                    if e == edge {
                        assert(b[i as int] == e);
                    }
                }
                if a.contains(edge) {
                    assert(all[a.index_of(edge)] == all[i as int]);
                }
                lemma_without_ids(list, a);
                assert(without_ids(list, a).contains(edge));
            }
            self.set_source(edge, keep);
            self.add_incident(keep, edge);
            self.remove_incident(remove, edge);
        }
        assert(all.subrange(0, all.len() as int) =~= all);
    }
}

/// `list` with `id` added at the end, unless it is there already.
pub open spec fn with_id<Id>(list: Seq<Id>, id: Id) -> Seq<Id> {
    if list.contains(id) {
        list
    } else {
        list.push(id)
    }
}

/// `list` with `id` taken out.
pub open spec fn without_id<Id>(list: Seq<Id>, id: Id) -> Seq<Id> {
    if list.contains(id) {
        list.remove(list.index_of(id))
    } else {
        list
    }
}

/// `list` with all of `ids` added in turn.
pub open spec fn with_ids<Id>(list: Seq<Id>, ids: Seq<Id>) -> Seq<Id>
    decreases ids.len(),
{
    if ids.len() == 0 {
        list
    } else {
        with_id(with_ids(list, ids.drop_last()), ids.last())
    }
}

/// `list` with all of `ids` taken out.
pub open spec fn without_ids<Id>(list: Seq<Id>, ids: Seq<Id>) -> Seq<Id>
    decreases ids.len(),
{
    if ids.len() == 0 {
        list
    } else {
        without_id(without_ids(list, ids.drop_last()), ids.last())
    }
}

pub proof fn lemma_without_id<Id>(list: Seq<Id>, id: Id)
    requires
        list.no_duplicates(),
    ensures
        without_id(list, id).no_duplicates(),
        forall|x: Id| #[trigger] without_id(list, id).contains(x) <==> list.contains(x) && x != id,
{
    let after = without_id(list, id);
    if list.contains(id) {
        let k = list.index_of(id);
        assert forall|x: Id| #[trigger] after.contains(x) <==> list.contains(x) && x != id by {
            if after.contains(x) {
                let i = after.index_of(x);
                if i < k {
                    assert(list[i] == x);
                } else {
                    assert(list[i + 1] == x);
                }
            }
            if list.contains(x) && x != id {
                let i = list.index_of(x);
                if i < k {
                    assert(after[i] == x);
                } else {
                    assert(after[i - 1] == x);
                }
            }
        }
    }
}

/// What is taken out of a list without repetitions is gone, and nothing else.
pub proof fn lemma_without_ids<Id>(list: Seq<Id>, ids: Seq<Id>)
    requires
        list.no_duplicates(),
    ensures
        without_ids(list, ids).no_duplicates(),
        forall|x: Id| #[trigger]
            without_ids(list, ids).contains(x) <==> list.contains(x) && !ids.contains(x),
    decreases ids.len(),
{
    if ids.len() > 0 {
        let rest = ids.drop_last();
        lemma_without_ids(list, rest);
        lemma_without_id(without_ids(list, rest), ids.last());
        assert forall|x: Id| #[trigger]
            without_ids(list, ids).contains(x) <==> list.contains(x) && !ids.contains(x) by {
            if rest.contains(x) {
                assert(ids[rest.index_of(x)] == x);
            }
            if ids.contains(x) && x != ids.last() {
                assert(rest[ids.index_of(x)] == x);
            }
            assert(ids.contains(ids[ids.len() - 1]));
        }
    }
}

pub proof fn lemma_with_id<Id>(list: Seq<Id>, id: Id)
    requires
        list.no_duplicates(),
    ensures
        with_id(list, id).no_duplicates(),
        forall|x: Id| #[trigger] with_id(list, id).contains(x) <==> list.contains(x) || x == id,
{
    let after = with_id(list, id);
    if !list.contains(id) {
        assert forall|x: Id| #[trigger] after.contains(x) <==> list.contains(x) || x == id by {
            if list.contains(x) {
                assert(after[list.index_of(x)] == x);
            }
            if x == id {
                assert(after[list.len() as int] == x);
            }
        }
    }
}

/// The edges of `list` that start at `node`.
pub open spec fn leaving<G: Graph>(graph: &G, node: G::NodeId, list: Seq<G::EdgeId>) -> Seq<
    G::EdgeId,
>
    decreases list.len(),
{
    if list.len() == 0 {
        Seq::empty()
    } else {
        let rest = leaving(graph, node, list.drop_last());
        if graph.spec_from(list.last()) == node {
            rest.push(list.last())
        } else {
            rest
        }
    }
}

pub proof fn lemma_leaving<G: Graph>(graph: &G, node: G::NodeId, list: Seq<G::EdgeId>)
    ensures
        forall|e: G::EdgeId| #[trigger]
            leaving(graph, node, list).contains(e) <==> list.contains(e) && graph.spec_from(e)
                == node,
    decreases list.len(),
{
    if list.len() > 0 {
        let rest = leaving(graph, node, list.drop_last());
        let all = leaving(graph, node, list);
        lemma_leaving(graph, node, list.drop_last());
        assert forall|e: G::EdgeId| #[trigger] all.contains(e) <==> list.contains(e)
            && graph.spec_from(e) == node by {
            if rest.contains(e) {
                assert(all[rest.index_of(e)] == e);
                assert(list.drop_last().contains(e));
                assert(list[list.drop_last().index_of(e)] == e);
            }
            if list.contains(e) && graph.spec_from(e) == node {
                let i = list.index_of(e);
                if i < list.len() - 1 {
                    assert(list.drop_last()[i] == e);
                    assert(rest.contains(e));
                } else {
                    assert(all[rest.len() as int] == e);
                }
            }
        }
    }
}

proof fn lemma_leaving_once<G: Graph>(graph: &G, node: G::NodeId, list: Seq<G::EdgeId>)
    requires
        list.no_duplicates(),
    ensures
        leaving(graph, node, list).no_duplicates(),
    decreases list.len(),
{
    if list.len() > 0 {
        let front = list.drop_last();
        lemma_leaving_once(graph, node, front);
        lemma_leaving(graph, node, front);
        let rest = leaving(graph, node, front);
        if rest.contains(list.last()) {
            assert(front.contains(list.last()));
            assert(list[front.index_of(list.last())] == list[list.len() - 1]);
        }
        assert(!rest.contains(list.last()));
        assert(rest.push(list.last()).no_duplicates());
    }
}

/// The edges that [`GraphMut::merge_nodes`] lets originate elsewhere: the outgoing edges
/// of the node that is removed, without the direct edge.
pub open spec fn rehomed<G: Graph>(graph: &G, remove: G::NodeId, direct_edge: G::EdgeId) -> Seq<
    G::EdgeId,
> {
    leaving(graph, remove, without_id(graph.spec_incident(remove), direct_edge))
}

/// A minimal control-flow-graph view: the successor relation on node ids.
///
/// The dominator analyses need nothing more of a graph than the successors of a
/// node, so that a caller can expose just a successor relation. Every [`Graph`] is
/// such a view.
pub trait Cfg {
    type NodeId: Identifier;

    /// The view is in a state in which successors can be asked for.
    spec fn is_valid(&self) -> bool;

    /// The targets of the outgoing edges of `n`.
    spec fn spec_successors(&self, n: Self::NodeId) -> Seq<Self::NodeId>;

    /// The successors of `n` (the targets of its outgoing edges).
    fn successors(&self, n: Self::NodeId) -> (targets: Vec<Self::NodeId>)
        requires
            self.is_valid(),
        ensures
            targets@ == self.spec_successors(n),
    ;
}

/// The step relation of a flow graph: `b` is a successor of `a`.
pub open spec fn flow<C: Cfg>(graph: &C) -> spec_fn(C::NodeId, C::NodeId) -> bool {
    |a: C::NodeId, b: C::NodeId| graph.spec_successors(a).contains(b)
}

/// The neighbours of `node` that a traversal mode leads to; none if it is no node.
pub open spec fn neighbours<M: TraversalMode, G: Graph>(graph: &G, node: G::NodeId) -> Seq<
    G::NodeId,
> {
    if graph.spec_nodes().contains(node) {
        relations::<M, G>(graph, node, graph.spec_incident(node)).map_values(
            |item: (G::EdgeId, G::NodeId)| item.1,
        )
    } else {
        Seq::empty()
    }
}

impl<G: Graph> Cfg for G {
    type NodeId = G::NodeId;

    open spec fn is_valid(&self) -> bool {
        is_navigable(self)
    }

    open spec fn spec_successors(&self, n: G::NodeId) -> Seq<G::NodeId> {
        neighbours::<ChildMode, G>(self, n)
    }

    fn successors(&self, n: G::NodeId) -> (targets: Vec<G::NodeId>) {
        let mut targets: Vec<G::NodeId> = Vec::new();
        if !self.contains_node(n) {
            return targets;
        }
        let items = node::related::<ChildMode, G>(self, n);
        for i in 0..items.len()
            invariant
                targets@ == items@.subrange(0, i as int).map_values(
                    |item: (G::EdgeId, G::NodeId)| item.1,
                ),
        {
            targets.push(items[i].1);
            proof {
                assert(items@.subrange(0, i + 1) =~= items@.subrange(0, i as int).push(
                    items@[i as int],
                ));
                assert(targets@ =~= items@.subrange(0, i + 1).map_values(
                    |item: (G::EdgeId, G::NodeId)| item.1,
                ));
            }
        }
        assert(items@.subrange(0, items@.len() as int) =~= items@);
        targets
    }
}

/// Walk mode that follows only outgoing edges.
pub struct Directed;

/// Walk mode that follows edges in both directions.
pub struct Undirected;

/// How a depth-first walk moves on from a node.
pub trait DfsMode {
    type Traversal: TraversalMode;
}

impl DfsMode for Directed {
    type Traversal = ChildMode;
}

impl DfsMode for Undirected {
    type Traversal = EdgeMode;
}

/// The steps that a walk in the mode `M` can take.
pub open spec fn dfs_steps<M: DfsMode, G: Graph>(graph: &G) -> spec_fn(
    G::NodeId,
    G::NodeId,
) -> bool {
    |a: G::NodeId, b: G::NodeId| neighbours::<M::Traversal, G>(graph, a).contains(b)
}

/// The pending discoveries without those at the end whose node has been visited.
pub open spec fn still_pending<E, N>(pending: Seq<(Option<E>, N)>, visited: Seq<N>) -> Seq<
    (Option<E>, N),
>
    decreases pending.len(),
{
    if pending.len() > 0 && visited.contains(pending.last().1) {
        still_pending(pending.drop_last(), visited)
    } else {
        pending
    }
}

/// The discoveries that edges to nodes not yet visited lead to.
pub open spec fn discoveries<E, N>(items: Seq<(E, N)>, visited: Seq<N>) -> Seq<(Option<E>, N)>
    decreases items.len(),
{
    if items.len() == 0 {
        Seq::empty()
    } else {
        let rest = discoveries(items.drop_last(), visited);
        if visited.contains(items.last().1) {
            rest
        } else {
            rest.push((Some(items.last().0), items.last().1))
        }
    }
}

/// Depth-first traversal over graph nodes.
///
/// [`DfsIter::next`] yields the edge along which a node was discovered (`None` for the
/// root) and the node. `Mode` controls how neighbours are explored:
/// - [`Directed`]: follows only outgoing edges
/// - [`Undirected`]: treats all incident edges as traversable
pub struct DfsIter<'graph, Mode, G: Graph> {
    graph: &'graph G,
    visited: FxHashSet<usize>,
    order: Ghost<Seq<G::NodeId>>,
    root: Ghost<G::NodeId>,
    stack: Vec<(Option<G::EdgeId>, G::NodeId)>,
    _marker: PhantomData<Mode>,
}

impl<'graph, Mode: DfsMode, G: Graph> DfsIter<'graph, Mode, G> {
    pub closed spec fn graph(&self) -> &'graph G {
        self.graph
    }

    pub closed spec fn root(&self) -> G::NodeId {
        self.root@
    }

    /// The nodes that have been handed out, in order.
    pub closed spec fn visited(&self) -> Seq<G::NodeId> {
        self.order@
    }

    /// The discoveries to be made, the next one last.
    pub closed spec fn pending(&self) -> Seq<(Option<G::EdgeId>, G::NodeId)> {
        self.stack@
    }

    pub closed spec fn wf(&self) -> bool {
        let e = dfs_steps::<Mode, G>(self.graph);
        &&& is_navigable(self.graph)
        &&& self.graph.spec_nodes().contains(self.root@)
        &&& self.order@.no_duplicates()
        &&& forall|n: G::NodeId|
            self.visited@.contains(#[trigger] n.spec_index()) <==> self.order@.contains(n)
        &&& forall|i: int|
            0 <= i < self.order@.len() ==> reaches(e, self.root@, #[trigger] self.order@[i])
        &&& forall|i: int| 0 <= i < self.stack@.len() ==> self.entry_ok(#[trigger] self.stack@[i])
        &&& self.order@.len() == 0 ==> self.stack@ =~= seq![(None, self.root@)]
        &&& self.order@.len() > 0 ==> self.order@[0] == self.root@
        &&& forall|i: int, b: G::NodeId|
            0 <= i < self.order@.len() && #[trigger] e(self.order@[i], b) ==> self.order@.contains(
                b,
            ) || exists|k: int| 0 <= k < self.stack@.len() && (#[trigger] self.stack@[k]).1 == b
    }

    /// A stacked node was discovered from a visited one, over the edge beside it.
    spec fn entry_ok(&self, entry: (Option<G::EdgeId>, G::NodeId)) -> bool {
        &&& self.graph.spec_nodes().contains(entry.1)
        &&& reaches(dfs_steps::<Mode, G>(self.graph), self.root@, entry.1)
        &&& match entry.0 {
            None => entry.1 == self.root@,
            Some(edge) => discovered_over::<Mode, G>(self.graph, self.order@, edge, entry.1),
        }
    }

    /// A walk that has just been started.
    pub open spec fn starts_at(&self, graph: &'graph G, root: G::NodeId) -> bool {
        &&& self.wf()
        &&& self.graph() == graph
        &&& self.root() == root
        &&& self.visited().len() == 0
        &&& self.pending() == seq![(None::<G::EdgeId>, root)]
    }

    fn start(graph: &'graph G, root: G::NodeId) -> (walk: Self)
        requires
            is_navigable(graph),
            graph.spec_nodes().contains(root),
        ensures
            walk.starts_at(graph, root),
    {
        proof {
            lemma_trivial_walk(dfs_steps::<Mode, G>(graph), root);
        }
        let walk = DfsIter {
            graph,
            visited: fx::set_new(),
            order: Ghost(Seq::empty()),
            root: Ghost(root),
            stack: vec![(None, root)],
            _marker: PhantomData,
        };
        proof {
            assert(walk.stack@ =~= seq![(None::<G::EdgeId>, root)]);
            assert(walk.entry_ok(walk.stack@[0]));
        }
        walk
    }

    /// The next node that the walk discovers, with the edge that led to it.
    #[verifier::rlimit(40)]
    pub fn next(&mut self) -> (item: Option<(Option<G::EdgeId>, G::NodeId)>)
        requires
            old(self).wf(),
        ensures
            final(self).wf(),
            final(self).graph() == old(self).graph(),
            final(self).root() == old(self).root(),
            match item {
                Some((edge, node)) => {
                    let ready = still_pending(old(self).pending(), old(self).visited());
                    &&& ready.len() > 0 && ready.last() == (edge, node)
                    &&& final(self).pending() == ready.drop_last() + discoveries(
                        relations::<Mode::Traversal, G>(
                            old(self).graph(),
                            node,
                            old(self).graph().spec_incident(node),
                        ),
                        final(self).visited(),
                    )
                    &&& final(self).visited() == old(self).visited().push(node)
                    &&& !old(self).visited().contains(node)
                    &&& reaches(dfs_steps::<Mode, G>(old(self).graph()), old(self).root(), node)
                    &&& match edge {
                        None => old(self).visited().len() == 0 && node == old(self).root(),
                        Some(edge) => discovered_over::<Mode, G>(
                            old(self).graph(),
                            old(self).visited(),
                            edge,
                            node,
                        ),
                    }
                },
                None => {
                    &&& still_pending(old(self).pending(), old(self).visited()).len() == 0
                    &&& final(self).visited() == old(self).visited()
                    &&& forall|n: G::NodeId| #[trigger]
                        old(self).visited().contains(n) <==> reaches(
                            dfs_steps::<Mode, G>(old(self).graph()),
                            old(self).root(),
                            n,
                        )
                },
            },
    {
        let ghost e = dfs_steps::<Mode, G>(self.graph);
        while self.stack.len() > 0
            invariant
                self.wf(),
                self.graph == old(self).graph,
                self.root == old(self).root,
                self.order == old(self).order,
                still_pending(self.stack@, self.order@) == still_pending(
                    old(self).stack@,
                    old(self).order@,
                ),
                e == dfs_steps::<Mode, G>(self.graph),
            decreases self.stack@.len(),
        {
            let ghost before = *self;
            let (edge_id, node) = self.stack.pop().unwrap();
            proof {
                assert(before.stack@[before.stack@.len() - 1] == (edge_id, node));
                assert(before.entry_ok(before.stack@[before.stack@.len() - 1]));
                assert forall|i: int| 0 <= i < self.stack@.len() implies self.entry_ok(
                    #[trigger] self.stack@[i],
                ) by {
                    assert(before.entry_ok(before.stack@[i]));
                }
            }
            assert(self.stack@ =~= before.stack@.drop_last());
            if fx::set_insert(&mut self.visited, node.to_usize()) {
                let items = node::related::<Mode::Traversal, G>(self.graph, node);
                self.order = Ghost(self.order@.push(node));
                let ghost order0 = before.order@;
                proof {
                    assert(!order0.contains(node));
                    assert(self.order@[order0.len() as int] == node);
                    assert forall|n: G::NodeId| self.visited@.contains(#[trigger] n.spec_index())
                        <==> self.order@.contains(n) by {
                        lemma_id_injective(n, node);
                        if order0.contains(n) {
                            assert(self.order@[order0.index_of(n)] == n);
                        }
                    }
                    assert forall|i: int| 0 <= i < self.stack@.len() implies self.entry_ok(
                        #[trigger] self.stack@[i],
                    ) by {
                        assert(before.entry_ok(before.stack@[i]));
                        lemma_discovered_more::<Mode, G>(self.graph, order0, node, self.stack@[i]);
                    }
                }
                let ghost stack1 = self.stack@;
                for i in 0..items.len()
                    invariant
                        self.graph == before.graph,
                        self.root == before.root,
                        self.order@ == order0.push(node),
                        is_navigable(self.graph),
                        self.graph.spec_nodes().contains(node),
                        reaches(e, self.root@, node),
                        e == dfs_steps::<Mode, G>(self.graph),
                        items@ == relations::<Mode::Traversal, G>(
                            self.graph,
                            node,
                            self.graph.spec_incident(node),
                        ),
                        forall|n: G::NodeId|
                            self.visited@.contains(#[trigger] n.spec_index())
                                <==> self.order@.contains(n),
                        forall|i: int|
                            0 <= i < self.stack@.len() ==> self.entry_ok(#[trigger] self.stack@[i]),
                        self.stack@ == stack1 + discoveries(
                            items@.subrange(0, i as int),
                            self.order@,
                        ),
                        stack1.len() <= self.stack@.len(),
                        forall|k: int|
                            0 <= k < stack1.len() ==> #[trigger] self.stack@[k] == stack1[k],
                        forall|j: int|
                            0 <= j < i ==> self.order@.contains((#[trigger] items@[j]).1)
                                || exists|k: int|
                                0 <= k < self.stack@.len() && (#[trigger] self.stack@[k]).1
                                    == items@[j].1,
                {
                    let (edge, child) = items[i];
                    let ghost stack2 = self.stack@;
                    assert(items@.subrange(0, i + 1).drop_last() =~= items@.subrange(0, i as int));
                    if !fx::set_contains(&self.visited, child.to_usize()) {
                        self.stack.push((Some(edge), child));
                        proof {
                            node::lemma_relations::<Mode::Traversal, G>(
                                self.graph,
                                node,
                                self.graph.spec_incident(node),
                            );
                            assert(items@.contains((edge, child)));
                            assert(self.graph.spec_incident(node).contains(edge));
                            let all = neighbours::<Mode::Traversal, G>(self.graph, node);
                            assert(all[i as int] == child);
                            assert(e(node, child));
                            let p = choose|p: Seq<G::NodeId>|
                                walk_between(e, p, self.root@, node);
                            lemma_extend(e, p, self.root@, node, child);
                            assert(self.order@[order0.len() as int] == node);
                            assert(discovered_over::<Mode, G>(
                                self.graph,
                                self.order@,
                                edge,
                                child,
                            ));
                            assert(self.entry_ok((Some(edge), child)));
                            assert(self.stack@[stack2.len() as int] == (Some(edge), child));
                            assert forall|j: int| 0 <= j < i + 1 implies self.order@.contains(
                                (#[trigger] items@[j]).1,
                            ) || exists|k: int|
                                0 <= k < self.stack@.len() && (#[trigger] self.stack@[k]).1
                                    == items@[j].1 by {
                                if j < i && !self.order@.contains(items@[j].1) {
                                    let k = choose|k: int|
                                        0 <= k < stack2.len() && (#[trigger] stack2[k]).1
                                            == items@[j].1;
                                    assert(self.stack@[k].1 == items@[j].1);
                                }
                            }
                        }
                    }
                }
                proof {
                    assert(items@.subrange(0, items@.len() as int) =~= items@);
                    assert forall|i: int, b: G::NodeId|
                        0 <= i < self.order@.len() && #[trigger] e(self.order@[i], b) implies self.order@.contains(
                        b,
                    ) || exists|k: int|
                        0 <= k < self.stack@.len() && (#[trigger] self.stack@[k]).1 == b by {
                        if i < order0.len() {
                            assert(e(order0[i], b));
                            if order0.contains(b) {
                                assert(self.order@[order0.index_of(b)] == b);
                            } else if b != node {
                                let k = choose|k: int|
                                    0 <= k < before.stack@.len() && (#[trigger] before.stack@[k]).1
                                        == b;
                                assert(stack1[k].1 == b);
                                assert(self.stack@[k].1 == b);
                            } else {
                                assert(self.order@[order0.len() as int] == b);
                            }
                        } else {
                            let all = neighbours::<Mode::Traversal, G>(self.graph, node);
                            let j = all.index_of(b);
                            assert(items@[j].1 == b);
                        }
                    }
                    assert forall|i: int| 0 <= i < self.order@.len() implies reaches(
                        e,
                        self.root@,
                        #[trigger] self.order@[i],
                    ) by {
                        if i < order0.len() {
                            assert(reaches(e, self.root@, order0[i]));
                        }
                    }
                    if order0.len() > 0 && edge_id is None {
                        assert(order0.contains(order0[0]));
                    }
                }
                return Some((edge_id, node));
            }
            proof {
                assert(before.order@.contains(node));
                assert(self.visited@ =~= before.visited@);
                assert forall|i: int, b: G::NodeId|
                    0 <= i < self.order@.len() && #[trigger] e(self.order@[i], b) implies self.order@.contains(
                    b,
                ) || exists|k: int|
                    0 <= k < self.stack@.len() && (#[trigger] self.stack@[k]).1 == b by {
                    if !self.order@.contains(b) {
                        let k = choose|k: int|
                            0 <= k < before.stack@.len() && (#[trigger] before.stack@[k]).1 == b;
                        assert(self.stack@[k].1 == b);
                    }
                }
            }
        }
        proof {
            let order = self.order@;
            assert forall|n: G::NodeId| #[trigger] order.contains(n) <==> reaches(e, self.root@, n) by {
                if order.contains(n) {
                    assert(reaches(e, self.root@, order[order.index_of(n)]));
                }
                if reaches(e, self.root@, n) {
                    let p = choose|p: Seq<G::NodeId>| walk_between(e, p, self.root@, n);
                    assert(order.contains(order[0]));
                    lemma_walk_stays(e, order, p, p.len() - 1);
                }
            }
        }
        None
    }
}

/// A walk never leaves a list that holds every step out of it.
pub proof fn lemma_walk_stays<N>(e: spec_fn(N, N) -> bool, list: Seq<N>, p: Seq<N>, i: int)
    requires
        is_walk(e, p),
        list.contains(p[0]),
        0 <= i < p.len(),
        forall|k: int, b: N| 0 <= k < list.len() && #[trigger] e(list[k], b) ==> list.contains(b),
    ensures
        list.contains(p[i]),
    decreases i,
{
    if i > 0 {
        lemma_walk_stays(e, list, p, i - 1);
        assert(step_at(e, p, i - 1));
        let k = list.index_of(p[i - 1]);
        assert(e(list[k], p[i]));
    }
}

proof fn lemma_discovered_more<M: DfsMode, G: Graph>(
    graph: &G,
    order: Seq<G::NodeId>,
    node: G::NodeId,
    entry: (Option<G::EdgeId>, G::NodeId),
)
    ensures
        entry.0 matches Some(edge) ==> discovered_over::<M, G>(graph, order, edge, entry.1)
            ==> discovered_over::<M, G>(graph, order.push(node), edge, entry.1),
{
    if let Some(edge) = entry.0 {
        if discovered_over::<M, G>(graph, order, edge, entry.1) {
            let i = choose|i: int|
                0 <= i < order.len() && relations::<M::Traversal, G>(
                    graph,
                    #[trigger] order[i],
                    graph.spec_incident(order[i]),
                ).contains((edge, entry.1));
            assert(order.push(node)[i] == order[i]);
        }
    }
}

/// `edge` leads from one of the nodes `order` to `node`.
pub open spec fn discovered_over<M: DfsMode, G: Graph>(
    graph: &G,
    order: Seq<G::NodeId>,
    edge: G::EdgeId,
    node: G::NodeId,
) -> bool {
    exists|i: int|
        0 <= i < order.len() && relations::<M::Traversal, G>(
            graph,
            #[trigger] order[i],
            graph.spec_incident(order[i]),
        ).contains((edge, node))
}

} // verus!
