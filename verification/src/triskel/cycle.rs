//! Cycle removal via back-edge gadgets.
//!
//! Ranking and ordering require an acyclic graph. Rather than reverse each back-edge
//! (which forces the router to draw it upside-down), it is replaced with an *acyclic
//! gadget* that is laid out so the edge leaves its source's bottom and enters its
//! target's top, wrapping cleanly around both.
//!
//! For a back-edge `B -> A` (A is an ancestor, so it ranks above B) there is a
//! virtual node `A'` just above A and `B'` just below B, the back-edge is dropped, and
//! three forward edges are added: `A' -> A`, `B -> B'`, and the long `A' -> B'`.
//!
//! Every gadget edge carries the original edge's `orig` id and a `reversed`
//! marker so the router can find and reassemble its pieces.
use crate::counting::{
    count_true, lemma_count_bound, lemma_count_shrinks, lemma_distinct_in_range,
};
use crate::graph::edge::Edge;
use crate::graph::laws::{
    law_make_edge_keeps_links, law_make_node_keeps_links, law_remove_edge_keeps_links,
};
use crate::graph::node::{
    lemma_relations, lemma_relations_distinct, related, relations, ChildMode,
};
use crate::graph::owning::{is_linked, EdgeEntry};
use crate::graph::walk::{
    is_walk, lemma_extend, lemma_trivial_walk, reaches, step_at, walk_between,
};
use crate::graph::{is_navigable, Graph};
use crate::registry::Identifier;
use crate::sorting::{comes_before, is_sorted_order, lemma_sorted_order, sorted_order, Key};
use crate::triskel::layout_graph::{
    state_of, EdgeLayoutData, LayoutGraph, LayoutState, NodeLayoutData,
};
use vstd::prelude::*;

verus! {

/// The steps over the edges of a layout.
pub open spec fn steps_of(edges: Map<usize, EdgeEntry<usize, EdgeLayoutData>>) -> spec_fn(
    usize,
    usize,
) -> bool {
    |a: usize, b: usize|
        exists|e: usize| #[trigger] edges.contains_key(e) && edges[e].from == a && edges[e].to == b
}

/// The nodes can be numbered so that every edge but a loop leads to a higher number.
pub open spec fn is_acyclic(edges: Map<usize, EdgeEntry<usize, EdgeLayoutData>>) -> bool {
    exists|number: Map<usize, int>| #[trigger] numbers_forward(edges, number)
}

pub open spec fn numbers_forward(
    edges: Map<usize, EdgeEntry<usize, EdgeLayoutData>>,
    number: Map<usize, int>,
) -> bool {
    forall|e: usize| #[trigger]
        edges.contains_key(e) && edges[e].from != edges[e].to ==> number[edges[e].from]
            < number[edges[e].to]
}

// The search.

/// The state of a depth-first search: a node is gray while it is on the way from the start,
/// black when it is done, and white before. `back` lists the edges found to lead back.
#[verifier::ext_equal]
pub struct Search {
    pub gray: Set<usize>,
    pub black: Set<usize>,
    pub back: Seq<usize>,
}

impl Search {
    pub open spec fn empty() -> Search {
        Search { gray: Set::empty(), black: Set::empty(), back: Seq::empty() }
    }

    pub open spec fn is_white(self, node: usize) -> bool {
        !self.gray.contains(node) && !self.black.contains(node)
    }
}

/// Visits `node` and what can be reached from it through white nodes: the node is gray
/// while its outgoing edges are looked at, and black then. At most `depth` nodes are gray
/// on the way; there are never more than there are nodes.
pub open spec fn visited(state: LayoutState, s: Search, node: usize, depth: nat) -> Search
    decreases depth, 0nat,
{
    if depth == 0 {
        s
    } else {
        let open = Search { gray: s.gray.insert(node), ..s };
        let done = looked(state, open, node, state.next_edge, (depth - 1) as nat);
        Search { gray: done.gray.remove(node), black: done.black.insert(node), ..done }
    }
}

/// Looks at those of the first `k` edges that leave `node`, in the order of their
/// identifiers: a white target is visited, an edge to a gray one leads back, and a loop or
/// an edge to a black target is passed.
pub open spec fn looked(state: LayoutState, s: Search, node: usize, k: nat, depth: nat) -> Search
    decreases depth, k,
{
    if k == 0 {
        s
    } else {
        let before = looked(state, s, node, (k - 1) as nat, depth);
        let edge = (k - 1) as usize;
        if leaves(state, node, edge) {
            looked_at(state, before, edge, visited(state, before, state.edges[edge].to, depth))
        } else {
            before
        }
    }
}

/// The edge leaves the node and is no loop.
pub open spec fn leaves(state: LayoutState, node: usize, edge: usize) -> bool {
    state.edges.contains_key(edge) && state.edges[edge].from == node && state.edges[edge].to != node
}

/// The search after a look at an edge; `beyond` is what a visit of its target gives.
pub open spec fn looked_at(state: LayoutState, s: Search, edge: usize, beyond: Search) -> Search {
    let target = state.edges[edge].to;
    if s.is_white(target) {
        beyond
    } else if s.gray.contains(target) {
        Search { back: s.back.push(edge), ..s }
    } else {
        s
    }
}

/// The search from those of the first `k` nodes that are still white, in the order of their
/// identifiers.
pub open spec fn scanned(state: LayoutState, s: Search, k: nat) -> Search
    decreases k,
{
    if k == 0 {
        s
    } else {
        let before = scanned(state, s, (k - 1) as nat);
        let node = (k - 1) as usize;
        if state.nodes.contains_key(node) && before.is_white(node) {
            visited(state, before, node, state.next_node)
        } else {
            before
        }
    }
}

/// The edges that a depth-first search finds to lead back: from the root first, then from
/// the other nodes in the order of their identifiers.
pub open spec fn found_back(state: LayoutState, root: usize) -> Seq<usize> {
    scanned(
        state,
        visited(state, Search::empty(), root, state.next_node),
        state.next_node,
    ).back
}

/// Edges that do not leave a node do not count when it is visited.
proof fn lemma_nothing_looked(state: LayoutState, s: Search, node: usize, a: nat, b: nat, depth: nat)
    requires
        a <= b,
        forall|e: int| a <= e < b ==> !leaves(state, node, #[trigger] (e as usize)),
    ensures
        looked(state, s, node, a, depth) == looked(state, s, node, b, depth),
    decreases b,
{
    if a < b {
        assert(!leaves(state, node, ((b - 1) as int) as usize));
        lemma_nothing_looked(state, s, node, a, (b - 1) as nat, depth);
    }
}

/// Places that hold no white node do not count.
proof fn lemma_nothing_scanned(state: LayoutState, s: Search, a: nat, b: nat)
    requires
        a <= b,
        forall|v: int| a <= v < b ==> !state.nodes.contains_key(#[trigger] (v as usize)),
    ensures
        scanned(state, s, a) == scanned(state, s, b),
    decreases b,
{
    if a < b {
        assert(!state.nodes.contains_key(((b - 1) as int) as usize));
        lemma_nothing_scanned(state, s, a, (b - 1) as nat);
    }
}

/// A depth-first search with what its proof needs.
struct Coloring {
    color: Vec<u8>,
    back: Vec<usize>,
    time: Ghost<Map<usize, int>>,
    clock: Ghost<int>,
}

spec fn whites(color: Seq<u8>) -> Seq<bool> {
    Seq::new(color.len(), |v: int| color[v] == 0)
}

impl Coloring {
    /// The state of the search.
    spec fn at(&self) -> Search {
        Search {
            gray: Set::new(|v: usize| v < self.color@.len() && self.color@[v as int] == 1),
            black: Set::new(|v: usize| v < self.color@.len() && self.color@[v as int] == 2),
            back: self.back@,
        }
    }

    spec fn inv(&self, graph: &LayoutGraph) -> bool {
        let edges = graph.edge_map();
        &&& forall|n: usize| #[trigger] graph.node_map().contains_key(n) ==> n < self.color@.len()
        &&& forall|v: int| 0 <= v < self.color@.len() ==> #[trigger] self.color@[v] <= 2
        &&& forall|v: usize|
            #![trigger self.time@.contains_key(v)]
            v < self.color@.len() ==> (self.color@[v as int] == 2 <==> self.time@.contains_key(v))
        &&& forall|v: usize| #[trigger]
            self.time@.contains_key(v) ==> v < self.color@.len() && 0 <= self.time@[v]
                < self.clock@
        &&& forall|e: usize| #[trigger]
            edges.contains_key(e) && edges[e].from != edges[e].to && self.time@.contains_key(
                edges[e].from,
            ) ==> self.back@.contains(e) || (self.time@.contains_key(edges[e].to)
                && self.time@[edges[e].to] < self.time@[edges[e].from])
        &&& forall|e: usize| #[trigger]
            self.back@.contains(e) ==> edges.contains_key(e) && edges[e].from != edges[e].to
                && reaches(steps_of(edges), edges[e].to, edges[e].from)
        &&& self.back@.no_duplicates()
        &&& forall|e: usize| #[trigger]
            self.back@.contains(e) ==> self.color@[edges[e].from as int] != 0
                && self.color@[edges[e].to as int] != 0
        &&& 0 <= self.clock@
    }

    /// Visits `node` and what can be reached from it through white nodes.
    #[verifier::rlimit(40)]
    fn visit(&mut self, graph: &LayoutGraph, node: usize, Ghost(depth): Ghost<nat>)
        requires
            count_true(whites(old(self).color@)) <= depth,
            graph.wf(),
            graph.next_edge() <= usize::MAX,
            is_linked(graph.node_map(), graph.edge_map()),
            old(self).inv(graph),
            graph.node_map().contains_key(node),
            old(self).color@[node as int] == 0,
            forall|g: usize|
                g < old(self).color@.len() && #[trigger] old(self).color@[g as int] == 1 ==> reaches(
                    steps_of(graph.edge_map()),
                    g,
                    node,
                ),
        ensures
            final(self).inv(graph),
            final(self).at() == visited(state_of(graph), old(self).at(), node, depth),
            final(self).color@.len() == old(self).color@.len(),
            final(self).color@[node as int] == 2,
            final(self).time@[node] == final(self).clock@ - 1,
            forall|v: int|
                0 <= v < old(self).color@.len() && old(self).color@[v] != 0 ==> #[trigger] final(self).color@[v] == old(self).color@[v],
            forall|v: int|
                0 <= v < old(self).color@.len() && #[trigger] final(self).color@[v] == 1 ==> old(self).color@[v] == 1,
            forall|e: usize| #[trigger]
                old(self).back@.contains(e) ==> final(self).back@.contains(e),
            forall|e: usize| #[trigger]
                final(self).back@.contains(e) ==> old(self).back@.contains(e) || old(self).color@[graph.edge_map()[e].from as int] == 0,
        decreases count_true(whites(old(self).color@)),
    {
        let ghost before = *self;
        let ghost edges = graph.edge_map();
        let ghost steps = steps_of(edges);
        let ghost state = state_of(graph);
        let ghost rest = (depth - 1) as nat;
        proof {
            graph.lemma_members();
            graph.lemma_linked_is_navigable();
            lemma_trivial_walk(steps, node);
        }
        self.color.set(node, 1);
        proof {
            lemma_fewer_whites(before.color@, self.color@, node as int);
            assert(!self.time@.contains_key(node));
        }
        let ghost open = self.at();
        assert(open =~= (Search { gray: before.at().gray.insert(node), ..before.at() }));
        let items = related::<ChildMode, LayoutGraph>(graph, node);
        let mut keys: Vec<Key> = Vec::new();
        for i in 0..items.len()
            invariant
                keys@.len() == i,
                forall|k: int| 0 <= k < i ==> #[trigger] keys@[k] == (items@[k].0, items@[k].1, 0usize),
        {
            keys.push((items[i].0, items[i].1, 0));
        }
        let order = sorted_order(&keys);
        proof {
            lemma_sorted_order(keys@, order@);
            lemma_relations::<ChildMode, LayoutGraph>(graph, node, graph.spec_incident(node));
            lemma_relations_distinct::<ChildMode, LayoutGraph>(
                graph,
                node,
                graph.spec_incident(node),
            );
            assert forall|i: int|
                #![trigger order@[i]]
                0 <= i < order@.len() implies !self.back@.contains(items@[order@[i] as int].0) by {
                let e = items@[order@[i] as int].0;
                let c = items@[order@[i] as int].1;
                assert(items@.contains((e, c)));
                assert(graph.node_map()[node].edges.contains(e));
                assert(edges[e].from == node);
            }
        }
        proof {
            lemma_looked_start(graph, node, keys@, items@, order@, open, rest);
        }
        for k in 0..order.len()
            invariant
                graph.wf(),
                is_linked(graph.node_map(), graph.edge_map()),
                is_navigable(graph),
                graph.next_edge() <= usize::MAX,
                state == state_of(graph),
                count_true(whites(before.color@)) <= depth,
                rest == depth - 1,
                self.at() == looked(
                    state,
                    open,
                    node,
                    next_edge_of(state, items@, order@, k as int),
                    rest,
                ),
                forall|i: int| 0 <= i < keys@.len() ==> #[trigger] keys@[i] == (items@[i].0, items@[i].1, 0usize),
                before == *old(self),
                before.inv(graph),
                before.color@[node as int] == 0,
                edges == graph.edge_map(),
                steps == steps_of(edges),
                graph.node_map().contains_key(node),
                self.inv(graph),
                self.color@.len() == before.color@.len(),
                node < self.color@.len(),
                self.color@[node as int] == 1,
                count_true(whites(self.color@)) < count_true(whites(before.color@)),
                forall|v: int|
                    0 <= v < before.color@.len() && before.color@[v] != 0
                        ==> #[trigger] self.color@[v] == before.color@[v],
                forall|v: int|
                    0 <= v < before.color@.len() && #[trigger] self.color@[v] == 1
                        ==> before.color@[v] == 1 || v == node,
                forall|e: usize| #[trigger]
                    before.back@.contains(e) ==> self.back@.contains(e),
                forall|g: usize|
                    g < self.color@.len() && #[trigger] self.color@[g as int] == 1 ==> reaches(
                        steps,
                        g,
                        node,
                    ),
                is_sorted_order(keys@, order@),
                keys@.len() == items@.len(),
                order@.no_duplicates(),
                items@ == relations::<ChildMode, LayoutGraph>(
                    graph,
                    node,
                    graph.spec_incident(node),
                ),
                forall|i: int, j: int|
                    0 <= i < j < items@.len() ==> (#[trigger] items@[i]).0 != (
                    #[trigger] items@[j]).0,
                forall|e: usize| #[trigger]
                    self.back@.contains(e) ==> before.back@.contains(e)
                        || before.color@[edges[e].from as int] == 0,
                forall|e: usize, c: usize| #[trigger]
                    items@.contains((e, c)) <==> graph.spec_incident(node).contains(e)
                        && graph.spec_from(e) == node && graph.spec_to(e) == c,
                forall|i: int|
                    #![trigger order@[i]]
                    0 <= i < k ==> {
                        let (e, c) = items@[order@[i] as int];
                        c == node || self.back@.contains(e) || self.time@.contains_key(c)
                    },
                forall|i: int|
                    #![trigger order@[i]]
                    k <= i < order@.len() ==> !self.back@.contains(items@[order@[i] as int].0),
        {
            let (edge, child) = items[order[k]];
            let ghost mid = *self;
            proof {
                graph.lemma_members();
                assert(items@[order@[k as int] as int] == (edge, child));
                assert(items@.contains((edge, child)));
                assert(graph.node_map()[node].edges.contains(edge));
                assert(edges.contains_key(edge));
                assert(edges[edge].from == node && edges[edge].to == child);
            }
            proof {
                lemma_looked_step(graph, node, keys@, items@, order@, open, rest, k as int);
            }
            if child != node {
                let shade: u8 = self.color[child];
                if shade == 0 {
                    proof {
                        assert(steps(node, child));
                        assert forall|g: usize|
                            g < self.color@.len() && #[trigger] self.color@[g as int] == 1 implies reaches(
                            steps,
                            g,
                            child,
                        ) by {
                            let p = choose|p: Seq<usize>| walk_between(steps, p, g, node);
                            lemma_extend(steps, p, g, node, child);
                        }
                    }
                    self.visit(graph, child, Ghost(rest));
                    proof {
                        lemma_no_more_whites(mid.color@, self.color@);
                        assert forall|i: int|
                            #![trigger order@[i]]
                            k + 1 <= i < order@.len() implies !self.back@.contains(
                            items@[order@[i] as int].0,
                        ) by {
                            let e = items@[order@[i] as int].0;
                            let c = items@[order@[i] as int].1;
                            assert(items@.contains((e, c)));
                            assert(graph.node_map()[node].edges.contains(e));
                            assert(edges[e].from == node);
                        }
                    }
                } else if shade == 1 {
                    self.back.push(edge);
                    proof {
                        assert(self.at() =~= (Search { back: mid.at().back.push(edge), ..mid.at() }));
                        assert(self.back@[mid.back@.len() as int] == edge);
                        assert forall|e: usize| #[trigger] self.back@.contains(e) <==> mid.back@.contains(e) || e == edge by {
                            if mid.back@.contains(e) {
                                assert(self.back@[mid.back@.index_of(e)] == e);
                            }
                        }
                        assert forall|i: int|
                            #![trigger order@[i]]
                            k + 1 <= i < order@.len() implies !self.back@.contains(
                            items@[order@[i] as int].0,
                        ) by {
                            assert(order@[k as int] != order@[i]);
                            assert(items@[order@[k as int] as int].0 != items@[order@[i] as int].0);
                        }
                    }
                }
            }
        }
        let ghost mid = *self;
        self.color.set(node, 2);
        self.time = Ghost(self.time@.insert(node, self.clock@));
        self.clock = Ghost(self.clock@ + 1);
        proof {
            let done = mid.at();
            assert(self.at() =~= (Search {
                gray: done.gray.remove(node),
                black: done.black.insert(node),
                ..done
            }));
            assert forall|e: usize| #[trigger]
                edges.contains_key(e) && edges[e].from != edges[e].to && self.time@.contains_key(
                    edges[e].from,
                ) implies self.back@.contains(e) || (self.time@.contains_key(edges[e].to)
                && self.time@[edges[e].to] < self.time@[edges[e].from]) by {
                if edges[e].from == node {
                    let c = edges[e].to;
                    assert(graph.spec_incident(node).contains(e));
                    assert(items@.contains((e, c)));
                    let j = items@.index_of((e, c));
                    assert(order@.contains(j as usize));
                    let i = order@.index_of(j as usize);
                    assert(items@[order@[i] as int] == (e, c));
                }
            }
        }
    }
}

/// Where the search looks next: at the edge of the item that is next in order.
spec fn next_edge_of(
    state: LayoutState,
    items: Seq<(usize, usize)>,
    order: Seq<usize>,
    k: int,
) -> nat {
    if k < order.len() {
        items[order[k] as int].0 as nat
    } else {
        state.next_edge
    }
}

/// The items are the outgoing edges of a node with their targets, and are sorted.
spec fn are_sorted_items(
    graph: &LayoutGraph,
    node: usize,
    keys: Seq<Key>,
    items: Seq<(usize, usize)>,
    order: Seq<usize>,
) -> bool {
    &&& graph.wf()
    &&& is_linked(graph.node_map(), graph.edge_map())
    &&& graph.next_edge() <= usize::MAX
    &&& graph.node_map().contains_key(node)
    &&& is_sorted_order(keys, order)
    &&& keys.len() == items.len()
    &&& items.len() <= usize::MAX
    &&& forall|i: int| 0 <= i < keys.len() ==> #[trigger] keys[i] == (items[i].0, items[i].1, 0usize)
    &&& forall|i: int, j: int|
        0 <= i < j < items.len() ==> (#[trigger] items[i]).0 != (#[trigger] items[j]).0
    &&& forall|e: usize, c: usize| #[trigger]
        items.contains((e, c)) <==> graph.spec_incident(node).contains(e) && graph.spec_from(e)
            == node && graph.spec_to(e) == c
}

/// Between two items that follow one another no edge leaves the node.
proof fn lemma_between_items(
    graph: &LayoutGraph,
    node: usize,
    keys: Seq<Key>,
    items: Seq<(usize, usize)>,
    order: Seq<usize>,
    k: int,
    e: usize,
)
    requires
        are_sorted_items(graph, node, keys, items, order),
        0 <= k <= order.len(),
        k > 0 ==> items[order[k - 1] as int].0 < e,
        e < next_edge_of(state_of(graph), items, order, k),
    ensures
        !leaves(state_of(graph), node, e),
{
    let edges = graph.edge_map();
    if leaves(state_of(graph), node, e) {
        let c = edges[e].to;
        graph.lemma_members();
        assert(graph.node_map()[node].edges.contains(e));
        assert(items.contains((e, c)));
        let j = items.index_of((e, c));
        lemma_sorted_order(keys, order);
        assert(order.contains(j as usize));
        let i = order.index_of(j as usize);
        if i < k - 1 {
            assert(comes_before(keys, order[i], order[k - 1]));
        }
        if k < i {
            assert(comes_before(keys, order[k], order[i]));
        }
    }
}

proof fn lemma_looked_start(
    graph: &LayoutGraph,
    node: usize,
    keys: Seq<Key>,
    items: Seq<(usize, usize)>,
    order: Seq<usize>,
    open: Search,
    depth: nat,
)
    requires
        are_sorted_items(graph, node, keys, items, order),
    ensures
        open == looked(
            state_of(graph),
            open,
            node,
            next_edge_of(state_of(graph), items, order, 0),
            depth,
        ),
{
    let state = state_of(graph);
    let first = next_edge_of(state, items, order, 0);
    assert forall|e: int| 0 <= e < first implies !leaves(state, node, #[trigger] (e as usize)) by {
        if leaves(state, node, e as usize) {
            graph.lemma_unissued();
            lemma_between_items(graph, node, keys, items, order, 0, e as usize);
        }
    }
    lemma_nothing_looked(state, open, node, 0, first, depth);
}

/// What the search does with one item.
proof fn lemma_looked_step(
    graph: &LayoutGraph,
    node: usize,
    keys: Seq<Key>,
    items: Seq<(usize, usize)>,
    order: Seq<usize>,
    open: Search,
    depth: nat,
    k: int,
)
    requires
        are_sorted_items(graph, node, keys, items, order),
        0 <= k < order.len(),
    ensures
        ({
            let state = state_of(graph);
            let (edge, child) = items[order[k] as int];
            let before = looked(state, open, node, edge as nat, depth);
            looked(state, open, node, next_edge_of(state, items, order, k + 1), depth) == if child
                == node {
                before
            } else {
                looked_at(state, before, edge, visited(state, before, child, depth))
            }
        }),
{
    let state = state_of(graph);
    let (edge, child) = items[order[k] as int];
    let next = next_edge_of(state, items, order, k + 1);
    assert(items.contains((edge, child)));
    assert(graph.node_map()[node].edges.contains(edge));
    assert(graph.edge_map().contains_key(edge));
    graph.lemma_members();
    graph.lemma_unissued();
    assert(edge < state.next_edge);
    if k + 1 < order.len() {
        assert(comes_before(keys, order[k], order[k + 1]));
        assert(keys[order[k] as int].0 == edge);
        lemma_sorted_order(keys, order);
        assert(items[order[k] as int].0 != items[order[k + 1] as int].0);
    }
    assert forall|e: int| edge + 1 <= e < next implies !leaves(state, node, #[trigger] (e as usize)) by {
        if leaves(state, node, e as usize) {
            lemma_between_items(graph, node, keys, items, order, k + 1, e as usize);
        }
    }
    lemma_nothing_looked(state, open, node, (edge + 1) as nat, next, depth);
    assert(((edge + 1) - 1) as usize == edge);
}

/// One white node less.
proof fn lemma_fewer_whites(before: Seq<u8>, after: Seq<u8>, node: int)
    requires
        0 <= node < before.len(),
        before[node] == 0,
        after == before.update(node, 1u8),
    ensures
        count_true(whites(after)) < count_true(whites(before)),
{
    assert(!whites(after)[node] && whites(before)[node]);
    lemma_count_shrinks(whites(after), whites(before));
}

/// No node becomes white again.
proof fn lemma_no_more_whites(before: Seq<u8>, after: Seq<u8>)
    requires
        before.len() == after.len(),
        forall|v: int| 0 <= v < before.len() && before[v] != 0 ==> #[trigger] after[v] == before[v],
    ensures
        count_true(whites(after)) <= count_true(whites(before)),
{
    lemma_count_shrinks(whites(after), whites(before));
}

/// A non-rendered node used only to anchor a back-edge gadget.
pub open spec fn virtual_node() -> NodeLayoutData {
    NodeLayoutData { rank: 0, order: 0, is_dummy: true, self_loops: 0 }
}

/// What the edges of a gadget carry of the edge that it stands for.
pub open spec fn gadget_edge(data: EdgeLayoutData) -> EdgeLayoutData {
    EdgeLayoutData {
        minlen: 1,
        weight: 1,
        reversed: true,
        orig: data.orig,
        port_start: data.port_start,
        port_end: data.port_end,
    }
}

/// The contents with the edge `id` replaced by its gadget.
pub open spec fn with_gadget(state: LayoutState, id: usize) -> LayoutState {
    let edge = state.edges[id];
    let above = state.next_node as usize;
    let below = (state.next_node + 1) as usize;
    let data = gadget_edge(edge.data);
    state.with_node(virtual_node()).with_node(virtual_node()).without_edge(id).with_edge(
        above,
        edge.to,
        data,
    ).with_edge(edge.from, below, data).with_edge(above, below, data)
}

/// The contents with all the edges of `back` replaced by their gadgets.
pub open spec fn with_gadgets(state: LayoutState, back: Seq<usize>) -> LayoutState
    decreases back.len(),
{
    if back.len() == 0 {
        state
    } else {
        with_gadget(with_gadgets(state, back.drop_last()), back.last())
    }
}

/// Each edge of `back` closes a cycle, without them there is no cycle, and every edge that
/// leads to the root from a node that can be reached from it is among them.
pub open spec fn breaks_cycles(state: LayoutState, root: usize, back: Seq<usize>) -> bool {
    let edges = state.edges;
    &&& back.no_duplicates()
    &&& forall|e: usize| #[trigger]
        back.contains(e) ==> edges.contains_key(e) && edges[e].from != edges[e].to && reaches(
            steps_of(edges),
            edges[e].to,
            edges[e].from,
        )
    &&& is_acyclic(edges.remove_keys(back.to_set()))
    &&& forall|e: usize| #[trigger]
        edges.contains_key(e) && edges[e].to == root && edges[e].from != root && reaches(
            steps_of(edges),
            root,
            edges[e].from,
        ) ==> back.contains(e)
}

/// Where the search goes on: at the node that is next in order.
spec fn next_start(state: LayoutState, ids: Seq<usize>, k: int) -> nat {
    if k < ids.len() {
        ids[k] as nat
    } else {
        state.next_node
    }
}

/// Between two nodes that follow one another there is none.
proof fn lemma_between_nodes(graph: &LayoutGraph, ids: Seq<usize>, k: int, v: usize)
    requires
        graph.wf(),
        ids == graph.spec_nodes(),
        0 <= k <= ids.len(),
        k > 0 ==> ids[k - 1] < v,
        v < next_start(state_of(graph), ids, k),
    ensures
        !graph.node_map().contains_key(v),
{
    graph.lemma_members();
    if graph.node_map().contains_key(v) {
        assert(ids.contains(v));
        let i = ids.index_of(v);
        if i < k - 1 {
            assert(ids[i].spec_index() < ids[k - 1].spec_index());
        }
        if k < i {
            assert(ids[k].spec_index() < ids[i].spec_index());
        }
    }
}

/// Finds the edges that lead back in a depth-first search, from the root first and then
/// from the other nodes in the order of their identifiers.
#[verifier::rlimit(40)]
fn find_back_edges(graph: &LayoutGraph, root: usize) -> (found: Coloring)
    requires
        graph.wf(),
        state_of(graph).is_sound(),
        graph.node_map().contains_key(root),
        graph.next_node() < usize::MAX,
        graph.next_edge() <= usize::MAX,
    ensures
        found.inv(graph),
        forall|n: usize| #[trigger] graph.node_map().contains_key(n) ==> found.time@.contains_key(n),
        breaks_cycles(state_of(graph), root, found.back@),
        found.back@ == found_back(state_of(graph), root),
{
    let ids = graph.node_ids();
    let ghost edges = graph.edge_map();
    let ghost steps = steps_of(edges);
    proof {
        graph.lemma_members();
        assert(ids@.contains(root));
        assert(graph.spec_nodes().contains(ids@[ids@.len() - 1]));
        assert(graph.node_map().contains_key(ids@[ids@.len() - 1]));
    }
    let cap: usize = ids[ids.len() - 1] + 1;
    let mut color: Vec<u8> = Vec::new();
    for v in 0..cap
        invariant
            color@.len() == v,
            forall|x: int| 0 <= x < v ==> #[trigger] color@[x] == 0,
    {
        color.push(0);
    }
    let mut search = Coloring {
        color,
        back: Vec::new(),
        time: Ghost(Map::empty()),
        clock: Ghost(0),
    };
    proof {
        assert forall|n: usize| #[trigger] graph.node_map().contains_key(n) implies n < cap by {
            assert(ids@.contains(n));
            let i = ids@.index_of(n);
            if i < ids@.len() - 1 {
                assert(ids@[i] < ids@[ids@.len() - 1]);
            }
        }
        assert(search.inv(graph));
    }
    let ghost state = state_of(graph);
    proof {
        lemma_count_bound(whites(search.color@));
        assert(search.at() =~= Search::empty());
    }
    search.visit(graph, root, Ghost(state.next_node));
    let ghost first = search;
    proof {
        assert forall|v: int| 0 <= v < next_start(state, ids@, 0) implies !state.nodes.contains_key(
            #[trigger] (v as usize),
        ) by {
            if state.nodes.contains_key(v as usize) {
                lemma_between_nodes(graph, ids@, 0, v as usize);
            }
        }
        lemma_nothing_scanned(state, first.at(), 0, next_start(state, ids@, 0));
    }
    proof {
        assert forall|v: int| 0 <= v < cap implies #[trigger] search.color@[v] != 1 by {}
        assert forall|e: usize| #[trigger]
            edges.contains_key(e) && edges[e].to == root && edges[e].from != root && reaches(
                steps,
                root,
                edges[e].from,
            ) implies search.back@.contains(e) by {
            lemma_blackened(graph, &search, root, edges[e].from);
        }
    }
    for i in 0..ids.len()
        invariant
            graph.wf(),
            is_linked(graph.node_map(), graph.edge_map()),
            ids@ == graph.spec_nodes(),
            search.inv(graph),
            search.color@.len() == cap,
            forall|n: usize| #[trigger] graph.node_map().contains_key(n) ==> n < cap,
            forall|v: int| 0 <= v < cap ==> #[trigger] search.color@[v] != 1,
            forall|e: usize| #[trigger] first.back@.contains(e) ==> search.back@.contains(e),
            forall|k: int| 0 <= k < i ==> search.color@[#[trigger] ids@[k] as int] == 2,
            state == state_of(graph),
            graph.next_edge() <= usize::MAX,
            cap <= state.next_node <= usize::MAX,
            search.at() == scanned(state, first.at(), next_start(state, ids@, i as int)),
    {
        let start: usize = ids[i];
        proof {
            graph.lemma_members();
            assert(graph.spec_nodes().contains(start));
            assert(graph.node_map().contains_key(start));
        }
        let ghost here = search;
        if search.color[start] == 0 {
            proof {
                lemma_count_bound(whites(search.color@));
            }
            search.visit(graph, start, Ghost(state.next_node));
        }
        proof {
            let next = next_start(state, ids@, i + 1);
            assert(here.at().is_white(start) <==> here.color@[start as int] == 0) by {
                assert(here.color@[start as int] <= 2);
            }
            assert(scanned(state, first.at(), (start + 1) as nat) == search.at());
            if i + 1 < ids@.len() {
                assert(ids@[i as int].spec_index() < ids@[i + 1].spec_index());
            }
            assert forall|v: int| start + 1 <= v < next implies !state.nodes.contains_key(
                #[trigger] (v as usize),
            ) by {
                if state.nodes.contains_key(v as usize) {
                    lemma_between_nodes(graph, ids@, i + 1, v as usize);
                }
            }
            lemma_nothing_scanned(state, first.at(), (start + 1) as nat, next);
        }
        proof {
            assert(search.color@[start as int] <= 2);
        }
    }
    proof {
        assert forall|n: usize| #[trigger] graph.node_map().contains_key(n) implies search.time@.contains_key(
            n,
        ) by {
            assert(ids@.contains(n));
            let k = ids@.index_of(n);
            assert(search.color@[ids@[k] as int] == 2);
        }
        let rest = edges.remove_keys(search.back@.to_set());
        let number = Map::total(|v: usize| -search.time@[v]);
        assert(numbers_forward(rest, number)) by {
            assert forall|e: usize| #[trigger]
                rest.contains_key(e) && rest[e].from != rest[e].to implies number[rest[e].from]
                < number[rest[e].to] by {
                assert(edges.contains_key(e));
                assert(graph.node_map().contains_key(edges[e].from));
                assert(!search.back@.contains(e));
            }
        }
    }
    search
}

/// After the search from the root, what can be reached from it is black.
proof fn lemma_blackened(graph: &LayoutGraph, search: &Coloring, root: usize, n: usize)
    requires
        is_linked(graph.node_map(), graph.edge_map()),
        search.inv(graph),
        forall|v: int| 0 <= v < search.color@.len() ==> #[trigger] search.color@[v] != 1,
        search.time@.contains_key(root),
        reaches(steps_of(graph.edge_map()), root, n),
    ensures
        search.time@.contains_key(n),
{
    let steps = steps_of(graph.edge_map());
    let p = choose|p: Seq<usize>| walk_between(steps, p, root, n);
    lemma_blackened_at(graph, search, p, p.len() - 1);
}

proof fn lemma_blackened_at(graph: &LayoutGraph, search: &Coloring, p: Seq<usize>, i: int)
    requires
        is_linked(graph.node_map(), graph.edge_map()),
        search.inv(graph),
        forall|v: int| 0 <= v < search.color@.len() ==> #[trigger] search.color@[v] != 1,
        is_walk(steps_of(graph.edge_map()), p),
        search.time@.contains_key(p[0]),
        0 <= i < p.len(),
    ensures
        search.time@.contains_key(p[i]),
    decreases i,
{
    if i > 0 {
        lemma_blackened_at(graph, search, p, i - 1);
        let edges = graph.edge_map();
        assert(step_at(steps_of(edges), p, i - 1));
        let e = choose|e: usize| #[trigger]
            edges.contains_key(e) && edges[e].from == p[i - 1] && edges[e].to == p[i];
        if p[i - 1] != p[i] {
            if search.back@.contains(e) {
                assert(graph.node_map().contains_key(edges[e].to));
                assert(search.color@[p[i] as int] <= 2);
                assert(search.color@[p[i] as int] != 1);
            }
        }
    }
}

/// Replaces every back-edge with its gadget so `graph` becomes acyclic. The search
/// starts at `root` so edge orientation is relative to the designated entry: any
/// edge climbing back to the entry (or to a node above it on the root's spanning
/// tree) is the back-edge, keeping the entry a source — and therefore the top
/// rank. Remaining nodes (those not forward-reachable from the root) are then
/// visited in id order so cycles in any directed region are still broken.
/// Deterministic: the root first, then nodes and out-edges in id order.
#[verifier::rlimit(40)]
pub fn break_cycles(graph: &mut LayoutGraph, root: usize)
    requires
        old(graph).wf(),
        state_of(old(graph)).is_sound(),
        old(graph).node_map().contains_key(root),
        old(graph).next_node() + 2 * old(graph).next_edge() + 2 <= usize::MAX,
        4 * old(graph).next_edge() <= usize::MAX,
    ensures
        final(graph).wf(),
        state_of(final(graph)).is_sound(),
        is_acyclic(final(graph).edge_map()),
        state_of(final(graph)) == with_gadgets(
            state_of(old(graph)),
            found_back(state_of(old(graph)), root),
        ),
        breaks_cycles(state_of(old(graph)), root, found_back(state_of(old(graph)), root)),
{
    let ghost before = state_of(graph);
    let search = find_back_edges(graph, root);
    let ghost back = search.back@;
    let ghost (n0, clock) = (before.next_node, search.clock@);
    let ghost number = Map::total(
        |v: usize|
            if v < n0 {
                -search.time@[v]
            } else if (v - n0) % 2 == 0 {
                -clock - 1
            } else {
                1
            },
    );
    proof {
        let ids = Seq::new(back.len(), |i: int| back[i] as int);
        assert forall|i: int| 0 <= i < ids.len() implies 0 <= #[trigger] ids[i] < before.next_edge by {
            assert(back.contains(back[i]));
        }
        lemma_distinct_in_range(ids, 0, before.next_edge as int);
        assert forall|k: int| 0 <= k < back.len() implies before.edges.contains_key(
            #[trigger] back[k],
        ) by {
            assert(back.contains(back[k]));
        }
        assert forall|e: usize| #[trigger]
            before.edges.contains_key(e) && !back.contains(e) && before.edges[e].from
                != before.edges[e].to implies number[before.edges[e].from]
            < number[before.edges[e].to] by {
            assert(before.nodes.contains_key(before.edges[e].from));
            assert(before.nodes.contains_key(before.edges[e].to));
            assert(search.time@.contains_key(before.edges[e].from));
        }
    }
    for i in 0..search.back.len()
        invariant
            before.is_sound(),
            search.back@ == back,
            back.no_duplicates(),
            back.len() <= before.next_edge,
            before.next_node + 2 * before.next_edge + 2 <= usize::MAX,
            4 * before.next_edge <= usize::MAX,
            n0 == before.next_node,
            clock == search.clock@,
            clock >= 0,
            forall|e: usize| #[trigger] back.contains(e) ==> before.edges.contains_key(e),
            forall|n: usize| #[trigger]
                before.nodes.contains_key(n) ==> search.time@.contains_key(n),
            forall|v: usize| #[trigger]
                search.time@.contains_key(v) ==> 0 <= search.time@[v] < clock,
            number == Map::total(
                |v: usize|
                    if v < n0 {
                        -search.time@[v]
                    } else if (v - n0) % 2 == 0 {
                        -clock - 1
                    } else {
                        1
                    },
            ),
            graph.wf(),
            state_of(graph) == with_gadgets(before, back.subrange(0, i as int)),
            state_of(graph).is_sound(),
            graph.next_node() == n0 + 2 * i,
            graph.next_edge() == before.next_edge + 3 * i,
            forall|n: usize| #[trigger]
                before.nodes.contains_key(n) ==> graph.node_map().contains_key(n),
            forall|k: int|
                i <= k < back.len() ==> graph.edge_map().contains_key(#[trigger] back[k])
                    && graph.edge_map()[back[k]] == before.edges[back[k]],
            forall|e: usize| #[trigger]
                graph.edge_map().contains_key(e) && graph.edge_map()[e].from
                    != graph.edge_map()[e].to && !(exists|k: int|
                    i <= k < back.len() && #[trigger] back[k] == e)
                    ==> number[graph.edge_map()[e].from] < number[graph.edge_map()[e].to],
    {
        let id: usize = search.back[i];
        let ghost s0 = state_of(graph);
        proof {
            assert(back.contains(id));
            assert(before.edges.contains_key(id));
            assert(s0.edges.contains_key(id));
            assert(back.subrange(0, i + 1).drop_last() =~= back.subrange(0, i as int));
            graph.lemma_members();
        }
        let edge = graph.get_edge(id).unwrap();
        let source: usize = edge.from_id();
        let target: usize = edge.to_id();
        let old_data = *edge.data();
        let data = EdgeLayoutData {
            minlen: 1,
            weight: 1,
            reversed: true,
            orig: old_data.orig,
            port_start: old_data.port_start,
            port_end: old_data.port_end,
        };
        let dummy = NodeLayoutData { rank: 0, order: 0, is_dummy: true, self_loops: 0 };
        proof {
            assert(before.nodes.contains_key(before.edges[id].from));
            assert(before.nodes.contains_key(before.edges[id].to));
            law_make_node_keeps_links(s0.nodes, s0.edges, s0.next_node as usize, dummy);
        }
        let above: usize = graph.make_node(dummy);
        let ghost s1 = state_of(graph);
        proof {
            law_make_node_keeps_links(s1.nodes, s1.edges, s1.next_node as usize, dummy);
        }
        let below: usize = graph.make_node(dummy);
        let ghost s2 = state_of(graph);
        proof {
            law_remove_edge_keeps_links(s2.nodes, s2.edges, id);
        }
        graph.remove_edge(id);
        let ghost s3 = state_of(graph);
        proof {
            law_make_edge_keeps_links(
                s3.nodes,
                s3.edges,
                s3.next_edge as usize,
                EdgeEntry { from: above, to: target, data },
            );
        }
        graph.make_edge(above, target, data);
        let ghost s4 = state_of(graph);
        proof {
            law_make_edge_keeps_links(
                s4.nodes,
                s4.edges,
                s4.next_edge as usize,
                EdgeEntry { from: source, to: below, data },
            );
        }
        graph.make_edge(source, below, data);
        let ghost s5 = state_of(graph);
        proof {
            law_make_edge_keeps_links(
                s5.nodes,
                s5.edges,
                s5.next_edge as usize,
                EdgeEntry { from: above, to: below, data },
            );
        }
        graph.make_edge(above, below, data);
        proof {
            let s6 = state_of(graph);
            assert(s6 == with_gadget(s0, id));
            assert(s6.is_sound());
            assert forall|e: usize| #[trigger]
                graph.edge_map().contains_key(e) && graph.edge_map()[e].from
                    != graph.edge_map()[e].to && !(exists|k: int|
                    i + 1 <= k < back.len() && #[trigger] back[k] == e) implies number[graph.edge_map()[e].from]
                < number[graph.edge_map()[e].to] by {
                assert(search.time@.contains_key(source));
                assert(search.time@.contains_key(target));
                if e == s3.next_edge || e == s4.next_edge || e == s5.next_edge {
                } else {
                    assert(s0.edges.contains_key(e));
                    assert(e != id);
                    if exists|k: int| i <= k < back.len() && #[trigger] back[k] == e {
                        let k = choose|k: int| i <= k < back.len() && #[trigger] back[k] == e;
                        assert(k != i);
                        assert(back[k] == e);
                    }
                }
            }
            assert forall|k: int| i + 1 <= k < back.len() implies graph.edge_map().contains_key(
                #[trigger] back[k],
            ) && graph.edge_map()[back[k]] == before.edges[back[k]] by {
                assert(back[k] != back[i as int]);
                assert(back.contains(back[k]));
                assert(s0.edges.contains_key(back[k]));
            }
        }
    }
    proof {
        assert(back.subrange(0, back.len() as int) =~= back);
        assert(numbers_forward(graph.edge_map(), number));
        assert(breaks_cycles(before, root, back));
    }
}

/// A gadget keeps edges and incident edges together.
pub proof fn lemma_gadget_sound(state: LayoutState, id: usize)
    requires
        state.is_sound(),
        state.edges.contains_key(id),
        state.next_node + 2 <= usize::MAX,
        state.next_edge + 3 <= usize::MAX,
    ensures
        with_gadget(state, id).is_sound(),
{
    let edge = state.edges[id];
    let above = state.next_node as usize;
    let below = (state.next_node + 1) as usize;
    let data = gadget_edge(edge.data);
    let s1 = state.with_node(virtual_node());
    law_make_node_keeps_links(state.nodes, state.edges, above, virtual_node());
    let s2 = s1.with_node(virtual_node());
    law_make_node_keeps_links(s1.nodes, s1.edges, below, virtual_node());
    let s3 = s2.without_edge(id);
    law_remove_edge_keeps_links(s2.nodes, s2.edges, id);
    let s4 = s3.with_edge(above, edge.to, data);
    law_make_edge_keeps_links(
        s3.nodes,
        s3.edges,
        s3.next_edge as usize,
        EdgeEntry { from: above, to: edge.to, data },
    );
    let s5 = s4.with_edge(edge.from, below, data);
    law_make_edge_keeps_links(
        s4.nodes,
        s4.edges,
        s4.next_edge as usize,
        EdgeEntry { from: edge.from, to: below, data },
    );
    law_make_edge_keeps_links(
        s5.nodes,
        s5.edges,
        s5.next_edge as usize,
        EdgeEntry { from: above, to: below, data },
    );
}

} // verus!
