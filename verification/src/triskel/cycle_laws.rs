//! What holds of the search for edges that lead back.
use crate::triskel::cycle::{found_back, leaves, looked, looked_at, scanned, visited, Search};
use crate::triskel::layout_graph::LayoutState;
use vstd::prelude::*;

verus! {

/// Nodes have been handed out, and edges join nodes.
pub open spec fn joins_nodes(state: LayoutState) -> bool {
    &&& state.next_edge <= usize::MAX
    &&& state.next_node <= usize::MAX
    &&& forall|e: usize| #[trigger]
        state.edges.contains_key(e) ==> e < state.next_edge && state.edges[e].to < state.next_node
}

/// The gray nodes are nodes, and the search may go as much deeper as there are others.
pub open spec fn has_depth(state: LayoutState, s: Search, depth: nat) -> bool {
    &&& s.gray.finite()
    &&& s.gray.len() + depth == state.next_node
    &&& forall|v: usize| #[trigger] s.gray.contains(v) ==> v < state.next_node
}

/// What a later state of the search keeps of an earlier one: the same nodes are gray, black
/// ones stay black, and what was found to lead back comes first.
pub open spec fn is_later(s: Search, t: Search) -> bool {
    &&& t.gray == s.gray
    &&& s.black.subset_of(t.black)
    &&& s.back.is_prefix_of(t.back)
}

/// The targets of the first `k` edges that leave a node have been met.
pub open spec fn has_met_targets(state: LayoutState, t: Search, node: usize, k: nat) -> bool {
    forall|e: usize|
        e < k && #[trigger] leaves(state, node, e) ==> !t.is_white(state.edges[e].to)
}

/// Below all nodes there is room for one more.
proof fn lemma_room(state: LayoutState, s: Search, depth: nat, v: usize)
    requires
        has_depth(state, s, depth),
        v < state.next_node,
        !s.gray.contains(v),
        state.next_node <= usize::MAX,
    ensures
        depth > 0,
{
    let more = s.gray.insert(v);
    assert(more.len() == s.gray.len() + 1);
    lemma_below(more, state.next_node);
}

proof fn lemma_below(set: Set<usize>, n: nat)
    requires
        set.finite(),
        forall|v: usize| #[trigger] set.contains(v) ==> v < n,
    ensures
        set.len() <= n,
    decreases n,
{
    if n == 0 {
        assert(set =~= Set::empty());
    } else {
        let last = (n - 1) as usize;
        let fewer = set.remove(last);
        lemma_below(fewer, (n - 1) as nat);
    }
}

/// Visiting a node: it is black then, the nodes that its edges lead to have been met, and
/// what was gray is gray again.
pub proof fn law_visited_node_is_done(state: LayoutState, s: Search, node: usize, depth: nat)
    requires
        joins_nodes(state),
        has_depth(state, s, depth),
        node < state.next_node,
        s.is_white(node),
    ensures
        is_later(s, visited(state, s, node, depth)),
        visited(state, s, node, depth).black.contains(node),
        has_met_targets(state, visited(state, s, node, depth), node, state.next_edge),
    decreases depth, 0nat,
{
    lemma_room(state, s, depth, node);
    let open = Search { gray: s.gray.insert(node), ..s };
    assert(has_depth(state, open, (depth - 1) as nat));
    law_edges_are_looked_at_in_order(state, open, node, state.next_edge, (depth - 1) as nat);
    let done = looked(state, open, node, state.next_edge, (depth - 1) as nat);
    let after = visited(state, s, node, depth);
    assert(after.gray =~= s.gray);
    assert forall|e: usize| e < state.next_edge && #[trigger] leaves(
        state,
        node,
        e,
    ) implies !after.is_white(state.edges[e].to) by {
        assert(!done.is_white(state.edges[e].to));
    }
}

/// The edges that leave a node are looked at in the order of their identifiers: after the
/// first `k`, the nodes that those lead to have been met, and what was gray is still gray.
pub proof fn law_edges_are_looked_at_in_order(
    state: LayoutState,
    s: Search,
    node: usize,
    k: nat,
    depth: nat,
)
    requires
        joins_nodes(state),
        has_depth(state, s, depth),
        k <= state.next_edge,
    ensures
        is_later(s, looked(state, s, node, k, depth)),
        has_met_targets(state, looked(state, s, node, k, depth), node, k),
    decreases depth, k + 1,
{
    if k > 0 {
        law_edges_are_looked_at_in_order(state, s, node, (k - 1) as nat, depth);
        let before = looked(state, s, node, (k - 1) as nat, depth);
        let after = looked(state, s, node, k, depth);
        let edge = (k - 1) as usize;
        assert(has_depth(state, before, depth));
        if leaves(state, node, edge) {
            let target = state.edges[edge].to;
            assert(target < state.next_node);
            if before.is_white(target) {
                lemma_visit(state, before, target, depth);
            }
            assert(is_later(before, after));
        }
        assert forall|e: usize| e < k && #[trigger] leaves(state, node, e) implies !after.is_white(
            state.edges[e].to,
        ) by {
            if e < k - 1 {
                assert(!before.is_white(state.edges[e].to));
            }
        }
        lemma_later_later(s, before, after);
    }
}

proof fn lemma_later_later(a: Search, b: Search, c: Search)
    requires
        is_later(a, b),
        is_later(b, c),
    ensures
        is_later(a, c),
{
    assert(a.back =~= c.back.take(a.back.len() as int)) by {
        assert(a.back =~= b.back.take(a.back.len() as int));
        assert(b.back =~= c.back.take(b.back.len() as int));
    }
}

/// A visit from inside another one.
proof fn lemma_visit(state: LayoutState, s: Search, node: usize, depth: nat)
    requires
        joins_nodes(state),
        has_depth(state, s, depth),
        node < state.next_node,
        s.is_white(node),
    ensures
        is_later(s, visited(state, s, node, depth)),
        visited(state, s, node, depth).black.contains(node),
    decreases depth, 1nat,
{
    law_visited_node_is_done(state, s, node, depth);
}

/// The search goes on from the other nodes in the order of their identifiers: after the first
/// `k`, those are black, and no node is gray.
pub proof fn law_nodes_are_searched_in_order(state: LayoutState, s: Search, k: nat)
    requires
        joins_nodes(state),
        s.gray == Set::<usize>::empty(),
        k <= state.next_node,
    ensures
        is_later(s, scanned(state, s, k)),
        forall|v: usize|
            v < k && #[trigger] state.nodes.contains_key(v) ==> scanned(state, s, k).black.contains(
                v,
            ),
    decreases k,
{
    if k > 0 {
        law_nodes_are_searched_in_order(state, s, (k - 1) as nat);
        let before = scanned(state, s, (k - 1) as nat);
        let after = scanned(state, s, k);
        let node = (k - 1) as usize;
        if state.nodes.contains_key(node) && before.is_white(node) {
            law_visited_node_is_done(state, before, node, state.next_node);
            lemma_later_later(s, before, after);
        }
        assert forall|v: usize|
            v < k && #[trigger] state.nodes.contains_key(v) implies after.black.contains(v) by {
            if v < k - 1 {
                assert(before.black.contains(v));
            } else {
                assert(!before.gray.contains(v));
            }
        }
    }
}

/// The edges that lead back to nodes on the way from the root are found first.
pub proof fn law_search_starts_at_the_root(state: LayoutState, root: usize)
    requires
        joins_nodes(state),
        root < state.next_node,
    ensures
        ({
            let first = visited(state, Search::empty(), root, state.next_node);
            &&& first.back.is_prefix_of(found_back(state, root))
            &&& first.black.contains(root)
            &&& has_met_targets(state, first, root, state.next_edge)
            &&& first.gray == Set::<usize>::empty()
        }),
{
    law_visited_node_is_done(state, Search::empty(), root, state.next_node);
    let first = visited(state, Search::empty(), root, state.next_node);
    law_nodes_are_searched_in_order(state, first, state.next_node);
}

/// An edge is found to lead back when its target is gray, and only then.
pub proof fn law_edges_to_gray_nodes_lead_back(state: LayoutState, s: Search, edge: usize, beyond: Search)
    requires
        !s.is_white(state.edges[edge].to),
    ensures
        looked_at(state, s, edge, beyond).back == if s.gray.contains(state.edges[edge].to) {
            s.back.push(edge)
        } else {
            s.back
        },
        looked_at(state, s, edge, beyond).black == s.black,
{
}

} // verus!
