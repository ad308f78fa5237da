//! What holds of the insides of regions.
use crate::graph::analysis::sese::IEdge;
use crate::triskel::quotient::{
    child_of, child_with, entity, inner_links, is_exit_source, is_quotient, terminal_links, Link,
    Quotient, RegionPortId,
};
use crate::triskel::region_tree::RegionTree;
use vstd::prelude::*;

verus! {

/// A child region of `r` holds the node.
pub open spec fn is_in_child(tree: RegionTree, r: int, v: usize) -> bool {
    exists|k: int|
        0 <= k < tree.children@[r]@.len() && tree.sets@[#[trigger] tree.children@[r]@[k] as int]@.contains(
            v,
        )
}

proof fn lemma_child_with(tree: RegionTree, children: Seq<usize>, k: int, v: usize)
    requires
        0 <= k <= children.len(),
    ensures
        match child_with(tree, children, k, v) {
            Some(i) => 0 <= i < k && tree.sets@[children[i] as int]@.contains(v),
            None => forall|i: int|
                0 <= i < k ==> !tree.sets@[#[trigger] children[i] as int]@.contains(v),
        },
    decreases k,
{
    if k > 0 && !tree.sets@[children[k - 1] as int]@.contains(v) {
        lemma_child_with(tree, children, k - 1, v);
    }
}

/// What stands for a node in a region: a proxy of a child region that holds it, or else the
/// node itself if the region owns it, and nothing otherwise.
pub proof fn law_entities_stand_for_nodes(tree: RegionTree, r: int, v: usize)
    ensures
        ({
            let owned = tree.owned@[r]@;
            match entity(tree, r, v) {
                Some(e) => if e < owned.len() {
                    0 <= e && owned[e] == v && !is_in_child(tree, r, v)
                } else {
                    &&& child_of(tree, r, e) matches Some(child) && tree.sets@[child as int]@.contains(
                        v,
                    )
                    &&& e < owned.len() + tree.children@[r]@.len()
                },
                None => !owned.contains(v) && !is_in_child(tree, r, v),
            }
        }),
{
    let children = tree.children@[r]@;
    let owned = tree.owned@[r]@;
    lemma_child_with(tree, children, children.len() as int, v);
    if owned.contains(v) {
        assert(owned[owned.index_of(v)] == v);
    }
}

/// The link stands for its edge: it leads between what stands for the two ends. It leaves a
/// child region through the port of the node where the edge starts, and enters one through
/// its entry.
pub open spec fn is_link_for(tree: RegionTree, r: int, edges: Seq<IEdge>, link: Link, i: int) -> bool {
    let (a, b) = (entity(tree, r, edges[i].from), entity(tree, r, edges[i].to));
    &&& link.original == Some(i as usize)
    &&& a == Some(link.from as int)
    &&& b == Some(link.to as int)
    &&& link.from != link.to
    &&& match child_of(tree, r, link.from as int) {
        Some(child) => link.start == Some((child, RegionPortId::Exit { source: edges[i].from })),
        None => link.start is None,
    }
    &&& match child_of(tree, r, link.to as int) {
        Some(child) => link.end == Some((child, RegionPortId::Entry)),
        None => link.end is None,
    }
}

/// Both ends of the edge lie in the region, and different things stand for them there.
pub open spec fn is_between(tree: RegionTree, r: int, edges: Seq<IEdge>, i: int) -> bool {
    &&& tree.sets@[r]@.contains(edges[i].from)
    &&& tree.sets@[r]@.contains(edges[i].to)
    &&& entity(tree, r, edges[i].from) != entity(tree, r, edges[i].to)
}

/// The links of a region are those of the edges between two of its entities, one for each, in
/// their order.
pub proof fn law_links_stand_for_edges(tree: RegionTree, r: int, edges: Seq<IEdge>, k: int)
    requires
        0 <= k <= edges.len() <= usize::MAX,
        tree.owned@[r]@.len() + tree.children@[r]@.len() <= usize::MAX,
        forall|i: int|
            0 <= i < tree.sets@[r]@.len() ==> entity(tree, r, #[trigger] tree.sets@[r]@[i]) is Some,
    ensures
        ({
            let links = inner_links(tree, r, edges, k);
            &&& forall|j: int|
                #![trigger links[j]]
                0 <= j < links.len() ==> {
                    &&& links[j].original matches Some(i) && i < k
                    &&& is_between(tree, r, edges, links[j].original->Some_0 as int)
                    &&& is_link_for(tree, r, edges, links[j], links[j].original->Some_0 as int)
                }
            &&& forall|i: int, j: int|
                0 <= i < j < links.len() ==> (#[trigger] links[i]).original->Some_0 < (
                #[trigger] links[j]).original->Some_0
            &&& forall|i: int|
                0 <= i < k && #[trigger] is_between(tree, r, edges, i) ==> has_link(links, i)
        }),
    decreases k,
{
    if k > 0 {
        law_links_stand_for_edges(tree, r, edges, k - 1);
        let before = inner_links(tree, r, edges, k - 1);
        let links = inner_links(tree, r, edges, k);
        let edge = edges[k - 1];
        if is_between(tree, r, edges, k - 1) {
            let inside = tree.sets@[r]@;
            assert(entity(tree, r, inside[inside.index_of(edge.from)]) is Some);
            assert(entity(tree, r, inside[inside.index_of(edge.to)]) is Some);
            law_entities_stand_for_nodes(tree, r, edge.from);
            law_entities_stand_for_nodes(tree, r, edge.to);
            assert(edge.from != edge.to);
        }
        assert forall|j: int| #![trigger links[j]] 0 <= j < links.len() implies {
            &&& links[j].original matches Some(i) && i < k
            &&& is_between(tree, r, edges, links[j].original->Some_0 as int)
            &&& is_link_for(tree, r, edges, links[j], links[j].original->Some_0 as int)
        } by {
            if j < before.len() {
                assert(links[j] == before[j]);
            }
        }
        assert forall|i: int, j: int| 0 <= i < j < links.len() implies (
        #[trigger] links[i]).original->Some_0 < (#[trigger] links[j]).original->Some_0 by {
            assert(links[i] == before[i]);
            if j < before.len() {
                assert(links[j] == before[j]);
            }
        }
        assert forall|i: int| 0 <= i < k && #[trigger] is_between(
            tree,
            r,
            edges,
            i,
        ) implies has_link(links, i) by {
            if i < k - 1 {
                assert(has_link(before, i));
                let j = choose|j: int|
                    0 <= j < before.len() && (#[trigger] before[j]).original == Some(i as usize);
                assert(links[j] == before[j]);
            } else {
                assert(links[before.len() as int].original == Some(i as usize));
            }
        }
    }
}

/// Some link stands for edge `i`.
pub open spec fn has_link(links: Seq<Link>, i: int) -> bool {
    exists|j: int| 0 <= j < links.len() && (#[trigger] links[j]).original == Some(i as usize)
}

/// In a region with boundaries one link leads from the terminal of its entry to where its
/// entry edge leads, and one to a terminal of its own from each node that edges leave the
/// region from. All the other links stand for edges.
pub proof fn law_terminals_are_linked(
    n: int,
    edges: Seq<IEdge>,
    tree: RegionTree,
    r: int,
    root: usize,
    q: Quotient,
)
    requires
        is_quotient(n, edges, tree, r, root, q),
        tree.bounds@[r] is Some,
        q.count <= usize::MAX,
    ensures
        ({
            let d = tree.owned@[r]@.len() + tree.children@[r]@.len();
            let x = q.exits@.len() as int;
            let entered = edges[tree.bounds@[r]->Some_0.0 as int].to;
            &&& q.links@.len() > x
            &&& q.links@[0].from == d
            &&& q.links@[0].to == entity(tree, r, entered)->Some_0 as usize
            &&& q.links@[0].original is None
            &&& forall|j: int|
                0 <= j < x ==> {
                    let link = #[trigger] q.links@[1 + j];
                    &&& link.from == entity(tree, r, q.exits@[j])->Some_0 as usize
                    &&& link.to == d + 1 + j
                    &&& link.original is None
                    &&& is_exit_source(edges, tree.sets@[r]@, q.exits@[j])
                }
            &&& q.links@.skip(1 + x) == inner_links(tree, r, edges, edges.len() as int)
        }),
{
    let x = q.exits@.len() as int;
    let first = terminal_links(tree, r, edges, q.exits@);
    assert(first.len() == 1 + x);
    assert(q.links@.skip(1 + x) =~= inner_links(tree, r, edges, edges.len() as int));
    assert forall|j: int| 0 <= j < x implies {
        let link = #[trigger] q.links@[1 + j];
        &&& link.from == entity(tree, r, q.exits@[j])->Some_0 as usize
        &&& link.to == tree.owned@[r]@.len() + tree.children@[r]@.len() + 1 + j
        &&& link.original is None
        &&& is_exit_source(edges, tree.sets@[r]@, q.exits@[j])
    } by {
        assert(q.links@[1 + j] == first[1 + j]);
        assert(q.exits@.contains(q.exits@[j]));
    }
}

} // verus!
