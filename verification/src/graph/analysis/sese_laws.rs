//! What holds of the regions of a flow graph.
use crate::graph::analysis::nesting::{
    first_smallest, holders, holds_all, hosts, is_laminar, lemma_owner_unique, owns,
};
use crate::graph::analysis::sese::{
    arcs, candidates_of, edge_leads, inner_edges, is_boundary, is_region, is_sese_tree,
    is_smallest, is_tree_of, lemma_selection_laminar, lemma_smallest_is_selected, lies_between,
    picked, shares_boundary, Candidate, ClosedFlow, IEdge, SeseRegion, SeseTree,
};
use crate::graph::node::{lemma_relations, relations, ChildMode};
use crate::graph::walk::{
    is_walk, lemma_extend, lemma_part, lemma_reaches_transitive, lemma_trivial_walk, reaches,
    step_at, walk_between,
};
use crate::graph::{flow, is_navigable, neighbours, Cfg, Graph};
use crate::registry::{lemma_id_injective, Identifier};
use vstd::prelude::*;

verus! {

/// The steps over all edges but `a` and `b`.
pub open spec fn arcs_without(edges: Seq<IEdge>, a: int, b: int) -> spec_fn(int, int) -> bool {
    |x: int, y: int|
        exists|i: int|
            0 <= i < edges.len() && i != a && i != b && #[trigger] edge_leads(
                edges,
                i,
                false,
                x,
                y,
            )
}

/// Some walk leads from `x` to `y` without the edges `a` and `b`.
pub open spec fn avoids(edges: Seq<IEdge>, a: int, b: int, x: int, y: int) -> bool {
    reaches(arcs_without(edges, a, b), x, y)
}

/// One more step over an edge that is not avoided.
proof fn lemma_avoids_step(edges: Seq<IEdge>, a: int, b: int, x: int, i: int)
    requires
        0 <= i < edges.len(),
        i != a,
        i != b,
        avoids(edges, a, b, x, edges[i].from as int),
    ensures
        avoids(edges, a, b, x, edges[i].to as int),
{
    let e = arcs_without(edges, a, b);
    assert(edge_leads(edges, i, false, edges[i].from as int, edges[i].to as int));
    assert(e(edges[i].from as int, edges[i].to as int));
    let p = choose|p: Seq<int>| walk_between(e, p, x, edges[i].from as int);
    lemma_extend(e, p, x, edges[i].from as int, edges[i].to as int);
}

proof fn lemma_avoids_trivial(edges: Seq<IEdge>, a: int, b: int, x: int)
    ensures
        avoids(edges, a, b, x, x),
{
    lemma_trivial_walk(arcs_without(edges, a, b), x);
}

proof fn lemma_avoids_join(edges: Seq<IEdge>, a: int, b: int, x: int, y: int, z: int)
    requires
        avoids(edges, a, b, x, y),
        avoids(edges, a, b, y, z),
    ensures
        avoids(edges, a, b, x, z),
{
    lemma_reaches_transitive(arcs_without(edges, a, b), x, y, z);
}

/// A walk that avoids more avoids less.
proof fn lemma_avoids_less(edges: Seq<IEdge>, a: int, b: int, c: int, x: int, p: Seq<int>, i: int)
    requires
        is_walk(arcs_without(edges, a, b), p),
        p[0] == x,
        0 <= i < p.len(),
        c == a || c == b,
    ensures
        avoids(edges, c, c, x, p[i]),
    decreases i,
{
    if i == 0 {
        lemma_avoids_trivial(edges, c, c, x);
    } else {
        lemma_avoids_less(edges, a, b, c, x, p, i - 1);
        assert(step_at(arcs_without(edges, a, b), p, i - 1));
        let k = choose|k: int|
            0 <= k < edges.len() && k != a && k != b && #[trigger] edge_leads(
                edges,
                k,
                false,
                p[i - 1],
                p[i],
            );
        lemma_avoids_step(edges, c, c, x, k);
    }
}

proof fn lemma_avoids_one(edges: Seq<IEdge>, a: int, b: int, c: int, x: int, y: int)
    requires
        avoids(edges, a, b, x, y),
        c == a || c == b,
    ensures
        avoids(edges, c, c, x, y),
{
    let p = choose|p: Seq<int>| walk_between(arcs_without(edges, a, b), p, x, y);
    lemma_avoids_less(edges, a, b, c, x, p, p.len() - 1);
}

/// A walk that avoids `s` either avoids `a` too, or goes over it a last time.
proof fn lemma_last_use(edges: Seq<IEdge>, s: int, a: int, x: int, p: Seq<int>, i: int)
    requires
        is_walk(arcs_without(edges, s, s), p),
        p[0] == x,
        0 <= i < p.len(),
    ensures
        avoids(edges, s, a, x, p[i]) || avoids(edges, s, a, edges[a].to as int, p[i]),
    decreases i,
{
    if i == 0 {
        lemma_avoids_trivial(edges, s, a, x);
    } else {
        lemma_last_use(edges, s, a, x, p, i - 1);
        assert(step_at(arcs_without(edges, s, s), p, i - 1));
        let k = choose|k: int|
            0 <= k < edges.len() && k != s && k != s && #[trigger] edge_leads(
                edges,
                k,
                false,
                p[i - 1],
                p[i],
            );
        if k == a {
            lemma_avoids_trivial(edges, s, a, edges[a].to as int);
        } else if avoids(edges, s, a, x, p[i - 1]) {
            lemma_avoids_step(edges, s, a, x, k);
        } else {
            lemma_avoids_step(edges, s, a, edges[a].to as int, k);
        }
    }
}

/// A step in front of a walk.
proof fn lemma_avoids_first(edges: Seq<IEdge>, a: int, b: int, i: int, y: int)
    requires
        0 <= i < edges.len(),
        i != a,
        i != b,
        avoids(edges, a, b, edges[i].to as int, y),
    ensures
        avoids(edges, a, b, edges[i].from as int, y),
{
    lemma_avoids_trivial(edges, a, b, edges[i].from as int);
    lemma_avoids_step(edges, a, b, edges[i].from as int, i);
    lemma_avoids_join(edges, a, b, edges[i].from as int, edges[i].to as int, y);
}

/// A walk that avoids `s` either avoids `a` too, or goes over it a first time.
proof fn lemma_first_use(edges: Seq<IEdge>, s: int, a: int, p: Seq<int>, i: int)
    requires
        is_walk(arcs_without(edges, s, s), p),
        0 <= i < p.len(),
    ensures
        avoids(edges, s, a, p[i], p[p.len() - 1]) || avoids(
            edges,
            s,
            a,
            p[i],
            edges[a].from as int,
        ),
    decreases p.len() - i,
{
    let y = p[p.len() - 1];
    if i == p.len() - 1 {
        lemma_avoids_trivial(edges, s, a, y);
    } else {
        lemma_first_use(edges, s, a, p, i + 1);
        assert(step_at(arcs_without(edges, s, s), p, i));
        let k = choose|k: int|
            0 <= k < edges.len() && k != s && k != s && #[trigger] edge_leads(
                edges,
                k,
                false,
                p[i],
                p[i + 1],
            );
        if k == a {
            lemma_avoids_trivial(edges, s, a, p[i]);
        } else if avoids(edges, s, a, p[i + 1], y) {
            lemma_avoids_first(edges, s, a, k, y);
        } else {
            lemma_avoids_first(edges, s, a, k, edges[a].from as int);
        }
    }
}

/// Walks without one edge, in the two ways of writing them.
proof fn lemma_same_walks(edges: Seq<IEdge>, a: int, x: int, y: int)
    ensures
        reaches(arcs(edges, a, false), x, y) == avoids(edges, a, a, x, y),
{
    let (e, f) = (arcs(edges, a, false), arcs_without(edges, a, a));
    if reaches(e, x, y) {
        let p = choose|p: Seq<int>| walk_between(e, p, x, y);
        assert(walk_between(f, p, x, y)) by {
            assert forall|i: int| 0 <= i < p.len() - 1 implies #[trigger] step_at(f, p, i) by {
                assert(step_at(e, p, i));
                let k = choose|k: int|
                    0 <= k < edges.len() && k != a && #[trigger] edge_leads(
                        edges,
                        k,
                        false,
                        p[i],
                        p[i + 1],
                    );
                assert(edge_leads(edges, k, false, p[i], p[i + 1]));
            }
        }
    }
    if reaches(f, x, y) {
        let p = choose|p: Seq<int>| walk_between(f, p, x, y);
        assert(walk_between(e, p, x, y)) by {
            assert forall|i: int| 0 <= i < p.len() - 1 implies #[trigger] step_at(e, p, i) by {
                assert(step_at(f, p, i));
                let k = choose|k: int|
                    0 <= k < edges.len() && k != a && k != a && #[trigger] edge_leads(
                        edges,
                        k,
                        false,
                        p[i],
                        p[i + 1],
                    );
                assert(edge_leads(edges, k, false, p[i], p[i + 1]));
            }
        }
    }
}

/// A walk backward is a walk forward from its end.
proof fn lemma_backward(edges: Seq<IEdge>, a: int, p: Seq<int>, i: int)
    requires
        is_walk(arcs(edges, a, true), p),
        0 <= i < p.len(),
    ensures
        avoids(edges, a, a, p[i], p[0]),
    decreases i,
{
    if i == 0 {
        lemma_avoids_trivial(edges, a, a, p[0]);
    } else {
        lemma_backward(edges, a, p, i - 1);
        assert(step_at(arcs(edges, a, true), p, i - 1));
        let k = choose|k: int|
            0 <= k < edges.len() && k != a && #[trigger] edge_leads(
                edges,
                k,
                true,
                p[i - 1],
                p[i],
            );
        lemma_avoids_first(edges, a, a, k, p[0]);
    }
}

/// A walk forward is a walk backward from its end.
proof fn lemma_forward(edges: Seq<IEdge>, a: int, p: Seq<int>, i: int)
    requires
        is_walk(arcs_without(edges, a, a), p),
        0 <= i < p.len(),
    ensures
        reaches(arcs(edges, a, true), p[p.len() - 1], p[i]),
    decreases p.len() - i,
{
    let e = arcs(edges, a, true);
    let y = p[p.len() - 1];
    if i == p.len() - 1 {
        lemma_trivial_walk(e, y);
    } else {
        lemma_forward(edges, a, p, i + 1);
        assert(step_at(arcs_without(edges, a, a), p, i));
        let k = choose|k: int|
            0 <= k < edges.len() && k != a && k != a && #[trigger] edge_leads(
                edges,
                k,
                false,
                p[i],
                p[i + 1],
            );
        assert(edge_leads(edges, k, true, p[i + 1], p[i]));
        assert(e(p[i + 1], p[i]));
        let z = p[i + 1];
        let q = choose|q: Seq<int>| walk_between(e, q, y, z);
        lemma_extend(e, q, y, z, p[i]);
    }
}

proof fn lemma_turned(edges: Seq<IEdge>, a: int, x: int, y: int)
    ensures
        reaches(arcs(edges, a, true), y, x) == avoids(edges, a, a, x, y),
{
    if reaches(arcs(edges, a, true), y, x) {
        let p = choose|p: Seq<int>| walk_between(arcs(edges, a, true), p, y, x);
        lemma_backward(edges, a, p, p.len() - 1);
    }
    if avoids(edges, a, a, x, y) {
        let p = choose|p: Seq<int>| walk_between(arcs_without(edges, a, a), p, x, y);
        lemma_forward(edges, a, p, 0);
    }
}

/// The node `v` can be reached from `root`.
pub open spec fn is_rooted(edges: Seq<IEdge>, root: int, v: int) -> bool {
    avoids(edges, -1, -1, root, v)
}

/// The entry edge of a region leads into it, from outside.
pub proof fn law_entry_leads_inside(edges: Seq<IEdge>, n: int, root: int, exit: int, a: int, b: int)
    requires
        0 <= a < edges.len(),
        0 <= b < edges.len(),
        is_boundary(edges, n, root, exit, a, b),
    ensures
        lies_between(edges, a, b, edges[a].to as int),
        !lies_between(edges, a, b, edges[a].from as int),
{
    let (first, last) = (edges[a].to as int, edges[b].from as int);
    let v = choose|v: int| 0 <= v < n - 1 && #[trigger] lies_between(edges, a, b, v);
    lemma_same_walks(edges, b, first, v);
    let p = choose|p: Seq<int>| walk_between(arcs_without(edges, b, b), p, first, v);
    lemma_last_use(edges, b, a, first, p, p.len() - 1);
    lemma_avoids_one(edges, b, a, a, first, v);
    lemma_turned(edges, a, v, last);
    lemma_avoids_join(edges, a, a, first, v, last);
    lemma_turned(edges, a, first, last);
    lemma_trivial_walk(arcs(edges, b, false), first);
}

/// The exit edge of a region leads out of it, from inside.
pub proof fn law_exit_leads_outside(edges: Seq<IEdge>, n: int, root: int, exit: int, a: int, b: int)
    requires
        0 <= a < edges.len(),
        0 <= b < edges.len(),
        is_boundary(edges, n, root, exit, a, b),
    ensures
        lies_between(edges, a, b, edges[b].from as int),
        !lies_between(edges, a, b, edges[b].to as int),
{
    let (first, last) = (edges[a].to as int, edges[b].from as int);
    let v = choose|v: int| 0 <= v < n - 1 && #[trigger] lies_between(edges, a, b, v);
    // From `v` the exit is reached without the entry, and then without the exit too.
    lemma_turned(edges, a, v, last);
    let p = choose|p: Seq<int>| walk_between(arcs_without(edges, a, a), p, v, last);
    lemma_same_walks(edges, b, first, v);
    lemma_last_use(edges, a, b, v, p, p.len() - 1);
    if avoids(edges, a, b, v, last) {
        lemma_avoids_one(edges, a, b, b, v, last);
        lemma_avoids_join(edges, b, b, first, v, last);
        lemma_same_walks(edges, b, first, last);
    } else {
        lemma_avoids_one(edges, a, b, a, edges[b].to as int, last);
        lemma_same_walks(edges, a, edges[b].to as int, last);
        assert(false);
    }
    lemma_trivial_walk(arcs(edges, a, true), last);
    if lies_between(edges, a, b, edges[b].to as int) {
        lemma_turned(edges, a, edges[b].to as int, last);
        lemma_same_walks(edges, a, edges[b].to as int, last);
        assert(false);
    }
}

/// The region between two boundary edges is entered over its entry edge alone: any other
/// edge that leads to one of its nodes comes from one of its nodes.
pub proof fn law_single_entry(
    edges: Seq<IEdge>,
    n: int,
    root: int,
    exit: int,
    a: int,
    b: int,
    e: int,
)
    requires
        0 <= a < edges.len(),
        0 <= b < edges.len(),
        0 <= e < edges.len(),
        e != a,
        is_boundary(edges, n, root, exit, a, b),
        is_rooted(edges, root, edges[e].from as int),
        lies_between(edges, a, b, edges[e].to as int),
    ensures
        lies_between(edges, a, b, edges[e].from as int),
{
    let (u, v) = (edges[e].from as int, edges[e].to as int);
    let (first, last) = (edges[a].to as int, edges[b].from as int);
    // From the source of the edge the exit is reached without the entry.
    lemma_turned(edges, a, v, last);
    lemma_avoids_first(edges, a, a, e, last);
    lemma_turned(edges, a, u, last);
    // The source is reached over the entry.
    let all = arcs_without(edges, -1, -1);
    let p = choose|p: Seq<int>| walk_between(all, p, root, u);
    lemma_last_use(edges, -1, a, root, p, p.len() - 1);
    if avoids(edges, -1, a, root, u) {
        lemma_avoids_one(edges, -1, a, a, root, u);
        lemma_avoids_join(edges, a, a, root, u, last);
        lemma_same_walks(edges, a, root, last);
        assert(false);
    }
    lemma_avoids_one(edges, -1, a, a, first, u);
    // And from there without the exit.
    let q = choose|q: Seq<int>| walk_between(arcs_without(edges, a, a), q, first, u);
    lemma_last_use(edges, a, b, first, q, q.len() - 1);
    if avoids(edges, a, b, first, u) {
        lemma_avoids_one(edges, a, b, b, first, u);
        lemma_same_walks(edges, b, first, u);
    } else {
        lemma_avoids_one(edges, a, b, a, edges[b].to as int, u);
        lemma_avoids_join(edges, a, a, edges[b].to as int, u, last);
        lemma_same_walks(edges, a, edges[b].to as int, last);
        assert(false);
    }
}

/// The region between two boundary edges is left over its exit edge alone: any other edge
/// from one of its nodes leads to one of its nodes, provided that the end of the flow can
/// be reached from there.
pub proof fn law_single_exit(
    edges: Seq<IEdge>,
    n: int,
    root: int,
    exit: int,
    a: int,
    b: int,
    e: int,
)
    requires
        0 <= a < edges.len(),
        0 <= b < edges.len(),
        0 <= e < edges.len(),
        e != b,
        is_boundary(edges, n, root, exit, a, b),
        is_rooted(edges, edges[e].to as int, exit),
        lies_between(edges, a, b, edges[e].from as int),
    ensures
        lies_between(edges, a, b, edges[e].to as int),
{
    let (u, v) = (edges[e].from as int, edges[e].to as int);
    let (first, last) = (edges[a].to as int, edges[b].from as int);
    // The target of the edge is reached from the entry without the exit.
    lemma_same_walks(edges, b, first, u);
    lemma_avoids_step(edges, b, b, first, e);
    lemma_same_walks(edges, b, first, v);
    // From the target the end of the flow is reached over the exit.
    let all = arcs_without(edges, -1, -1);
    let p = choose|p: Seq<int>| walk_between(all, p, v, exit);
    lemma_first_use(edges, -1, b, p, 0);
    if avoids(edges, -1, b, v, exit) {
        lemma_avoids_one(edges, -1, b, b, v, exit);
        lemma_avoids_join(edges, b, b, first, v, exit);
        lemma_turned(edges, b, first, exit);
        assert(false);
    }
    lemma_avoids_one(edges, -1, b, b, v, last);
    // And up to there without the entry.
    let q = choose|q: Seq<int>| walk_between(arcs_without(edges, b, b), q, v, last);
    lemma_first_use(edges, b, a, q, 0);
    if avoids(edges, b, a, v, last) {
        lemma_avoids_one(edges, b, a, a, v, last);
        lemma_turned(edges, a, v, last);
    } else {
        lemma_avoids_one(edges, b, a, b, v, edges[a].from as int);
        lemma_avoids_join(edges, b, b, first, v, edges[a].from as int);
        lemma_same_walks(edges, b, first, edges[a].from as int);
        assert(false);
    }
}

// Trees.

/// The regions of a tree are nested: each but the outermost comes after its parent, which
/// holds all its nodes; any two are disjoint or one holds the other; no two canonical
/// regions share their entry edge or their exit edge; and each is the smallest region with
/// its entry edge and the smallest with its exit edge.
pub proof fn law_regions_are_nested<N, E>(
    closed: ClosedFlow<N, E>,
    list: Seq<Candidate>,
    selected: Seq<usize>,
    sets: Seq<Vec<usize>>,
    parent: Seq<usize>,
    children: Seq<Vec<usize>>,
    owned: Seq<Vec<usize>>,
    regions: Seq<SeseRegion<N, E>>,
)
    requires
        candidates_of(closed, list),
        is_tree_of(closed, list, selected, sets, parent, children, owned, regions),
    ensures
        forall|r: int|
            1 <= r < sets.len() ==> (#[trigger] parent[r]) < r && holds_all(
                sets[parent[r] as int]@,
                sets[r]@,
            ),
        forall|r: int, q: int|
            0 <= r < sets.len() && 0 <= q < sets.len() && r != q ==> is_laminar(
                (#[trigger] sets[r])@,
                (#[trigger] sets[q])@,
            ),
        forall|i: int, j: int|
            0 <= i < selected.len() && 0 <= j < selected.len() && i != j ==> !shares_boundary(
                list[#[trigger] selected[i] as int],
                list[#[trigger] selected[j] as int],
            ),
        forall|i: int|
            0 <= i < selected.len() ==> is_smallest(list, #[trigger] selected[i] as int),
{
    lemma_selection_laminar(list, selected);
    let m = closed.ids@.len() as int;
    assert forall|r: int| 1 <= r < sets.len() implies (#[trigger] parent[r]) < r && holds_all(
        sets[parent[r] as int]@,
        sets[r]@,
    ) by {
        assert(first_smallest(sets, holders(sets, sets[r]@), 0, r, parent[r] as int));
        assert(holders(sets, sets[r]@)(parent[r] as int));
    }
    assert forall|r: int| 1 <= r < sets.len() implies holds_all(
        sets[0]@,
        (#[trigger] sets[r])@,
    ) by {
        let c = list[selected[r - 1] as int];
        assert(selected[r - 1] < list.len());
        assert(is_region(
            closed.edges@,
            (m + 1) as int,
            c.entry as int,
            c.exit as int,
            c.nodes@,
        ));
        assert forall|i: int| 0 <= i < sets[r]@.len() implies sets[0]@.contains(
            #[trigger] sets[r]@[i],
        ) by {
            let v = sets[r]@[i];
            assert(c.nodes@.contains(v));
            assert(sets[0]@[v as int] == v);
        }
    }
    assert forall|r: int, q: int|
        0 <= r < sets.len() && 0 <= q < sets.len() && r != q implies is_laminar(
        (#[trigger] sets[r])@,
        (#[trigger] sets[q])@,
    ) by {
        if r > 0 && q > 0 {
            assert(is_laminar(
                list[selected[r - 1] as int].nodes@,
                list[selected[q - 1] as int].nodes@,
            ));
        }
    }
}

/// A candidate that is the smallest with its entry edge and the smallest with its exit edge
/// is canonical where it crosses no other such candidate: the tree has a region for it.
pub proof fn law_smallest_regions_are_canonical<N, E>(
    closed: ClosedFlow<N, E>,
    list: Seq<Candidate>,
    selected: Seq<usize>,
    sets: Seq<Vec<usize>>,
    parent: Seq<usize>,
    children: Seq<Vec<usize>>,
    owned: Seq<Vec<usize>>,
    regions: Seq<SeseRegion<N, E>>,
    c: usize,
)
    requires
        candidates_of(closed, list),
        is_tree_of(closed, list, selected, sets, parent, children, owned, regions),
        c < list.len(),
        is_smallest(list, c as int),
        forall|l: int|
            0 <= l < list.len() && is_smallest(list, l) ==> is_laminar(
                list[c as int].nodes@,
                (#[trigger] list[l]).nodes@,
            ),
    ensures
        exists|r: int|
            #![trigger regions[r]]
            1 <= r < regions.len() && regions[r].contained_nodes@ == picked(
                closed.ids@,
                list[c as int].nodes@,
            ) && regions[r].entry_edge == Some(closed.originals@[list[c as int].entry as int])
                && regions[r].exit_edge == Some(closed.originals@[list[c as int].exit as int]),
{
    lemma_smallest_is_selected(list, selected, c);
    let i = selected.index_of(c);
    assert(sets[i + 1]@ == list[selected[i] as int].nodes@);
    assert(regions[i + 1].contained_nodes@ == picked(closed.ids@, sets[i + 1]@));
}

/// Every node that can be reached belongs to exactly one region.
pub proof fn law_nodes_have_one_region<N, E>(
    closed: ClosedFlow<N, E>,
    list: Seq<Candidate>,
    selected: Seq<usize>,
    sets: Seq<Vec<usize>>,
    parent: Seq<usize>,
    children: Seq<Vec<usize>>,
    owned: Seq<Vec<usize>>,
    regions: Seq<SeseRegion<N, E>>,
    v: usize,
)
    requires
        is_tree_of(closed, list, selected, sets, parent, children, owned, regions),
        v < closed.ids@.len(),
    ensures
        exists|r: int| 0 <= r < owned.len() && (#[trigger] owned[r])@.contains(v),
        forall|r: int, q: int|
            0 <= r < owned.len() && 0 <= q < owned.len() && (#[trigger] owned[r])@.contains(v) && (
            #[trigger] owned[q])@.contains(v) ==> r == q,
        forall|r: int|
            0 <= r < owned.len() && (#[trigger] owned[r])@.contains(v) ==> sets[r]@.contains(v),
{
    let n = sets.len() as int;
    let fits = hosts(sets, v);
    assert(sets[0]@[v as int] == v);
    assert(fits(0));
    let best = lemma_smallest_exists(sets, fits, n);
    assert(owns(sets, 0, v, best));
    assert(owned[best]@.contains(v));
    assert forall|r: int, q: int|
        0 <= r < owned.len() && 0 <= q < owned.len() && (#[trigger] owned[r])@.contains(v) && (
        #[trigger] owned[q])@.contains(v) implies r == q by {
        lemma_owner_unique(sets, 0, v, r, q);
    }
    assert forall|r: int| 0 <= r < owned.len() && (#[trigger] owned[r])@.contains(v) implies sets[r]@.contains(
    v) by {
        assert(owns(sets, 0, v, r));
        assert(fits(r));
    }
}

/// Among sets of which one fits there is a first smallest one.
proof fn lemma_smallest_exists(sets: Seq<Vec<usize>>, fits: spec_fn(int) -> bool, hi: int) -> (best:
    int)
    requires
        0 < hi <= sets.len(),
        exists|k: int| 0 <= k < hi && #[trigger] fits(k),
    ensures
        first_smallest(sets, fits, 0, hi, best),
    decreases hi,
{
    let last = hi - 1;
    if exists|k: int| 0 <= k < last && #[trigger] fits(k) {
        let best = lemma_smallest_exists(sets, fits, last);
        if fits(last) && sets[last]@.len() < sets[best]@.len() {
            last
        } else {
            best
        }
    } else {
        let k = choose|k: int| 0 <= k < hi && #[trigger] fits(k);
        assert(k == last);
        last
    }
}

// What is reached.

/// A member of the inner edges is an edge between two different listed nodes.
proof fn lemma_inner_member<G: Graph>(
    graph: &G,
    ids: Seq<G::NodeId>,
    list: Seq<G::EdgeId>,
    e: G::EdgeId,
)
    requires
        list.contains(e),
        graph.spec_from(e) != graph.spec_to(e),
        ids.contains(graph.spec_from(e)),
        ids.contains(graph.spec_to(e)),
    ensures
        inner_edges(graph, ids, list).contains(e),
    decreases list.len(),
{
    let all = inner_edges(graph, ids, list);
    let rest = inner_edges(graph, ids, list.drop_last());
    if list.last() == e {
        assert(all[rest.len() as int] == e);
    } else {
        let i = list.index_of(e);
        assert(list.drop_last()[i] == e);
        lemma_inner_member(graph, ids, list.drop_last(), e);
        let k = rest.index_of(e);
        assert(all[k] == e);
    }
}

/// In a closed flow graph every node can be reached from the entry.
pub proof fn law_closed_flow_is_rooted<G: Graph>(
    graph: &G,
    root: G::NodeId,
    closed: ClosedFlow<G::NodeId, G::EdgeId>,
    v: int,
)
    requires
        is_navigable(graph),
        closed.represents(graph, root),
        0 <= v < closed.ids@.len(),
    ensures
        is_rooted(closed.edges@, closed.entry as int, v),
{
    let ids = closed.ids@;
    let e = flow(graph);
    assert(ids.contains(ids[v]));
    assert(reaches(e, root, ids[v]));
    let end = ids[v];
    let p = choose|p: Seq<G::NodeId>| walk_between(e, p, root, end);
    lemma_rooted_along(graph, root, closed, p, p.len() - 1, v);
}

proof fn lemma_rooted_along<G: Graph>(
    graph: &G,
    root: G::NodeId,
    closed: ClosedFlow<G::NodeId, G::EdgeId>,
    p: Seq<G::NodeId>,
    i: int,
    v: int,
)
    requires
        is_navigable(graph),
        closed.represents(graph, root),
        is_walk(flow(graph), p),
        p[0] == root,
        0 <= i < p.len(),
        0 <= v < closed.ids@.len(),
        closed.ids@[v] == p[i],
    ensures
        is_rooted(closed.edges@, closed.entry as int, v),
    decreases i,
{
    let ids = closed.ids@;
    let e = flow(graph);
    let edges = closed.edges@;
    if i == 0 {
        lemma_distinct_ids(ids, v, closed.entry as int);
        lemma_avoids_trivial(edges, -1, -1, v);
    } else {
        let u = p[i - 1];
        lemma_part(e, p, 0, i - 1);
        assert(reaches(e, root, u));
        assert(ids.contains(u));
        let a = ids.index_of(u);
        lemma_rooted_along(graph, root, closed, p, i - 1, a);
        assert(step_at(e, p, i - 1));
        let near = neighbours::<ChildMode, G>(graph, u);
        assert(near.contains(p[i]));
        assert(graph.spec_nodes().contains(u));
        let k = near.index_of(p[i]);
        let pairs = relations::<ChildMode, G>(graph, u, graph.spec_incident(u));
        lemma_relations::<ChildMode, G>(graph, u, graph.spec_incident(u));
        assert(pairs[k].1 == p[i]);
        let edge = pairs[k].0;
        assert(pairs.contains((edge, p[i])));
        assert(graph.spec_incident(u).contains(edge));
        assert(graph.spec_edges().contains(edge));
        lemma_id_injective(u, graph.spec_from(edge));
        if u == p[i] {
            lemma_distinct_ids(ids, a, v);
        } else {
            lemma_inner_member(graph, ids, graph.spec_edges(), edge);
            let j = closed.originals@.index_of(edge);
            let part = edges.subrange(0, closed.originals@.len() as int);
            assert(part[j] == edges[j]);
            assert(ids[part[j].from as int] == u && ids[part[j].to as int] == p[i]);
            lemma_distinct_ids(ids, part[j].from as int, a);
            lemma_distinct_ids(ids, part[j].to as int, v);
            lemma_avoids_step(edges, -1, -1, closed.entry as int, j);
        }
    }
}

/// Sorted identifiers are distinct.
proof fn lemma_distinct_ids<Id: Identifier>(ids: Seq<Id>, i: int, j: int)
    requires
        forall|i: int, j: int|
            0 <= i < j < ids.len() ==> (#[trigger] ids[i]).spec_index() < (
            #[trigger] ids[j]).spec_index(),
        0 <= i < ids.len(),
        0 <= j < ids.len(),
        ids[i] == ids[j],
    ensures
        i == j,
{
    if i < j {
        assert(ids[i].spec_index() < ids[j].spec_index());
    } else if j < i {
        assert(ids[j].spec_index() < ids[i].spec_index());
    }
}

/// The nodes of each region of a graph are entered over the entry edge alone: any other
/// edge of the graph that leads to one of them from a node that can be reached comes from
/// one of them.
pub proof fn law_regions_have_a_single_entry<G: Graph>(
    graph: &G,
    root: G::NodeId,
    closed: ClosedFlow<G::NodeId, G::EdgeId>,
    list: Seq<Candidate>,
    k: int,
    e: int,
)
    requires
        is_navigable(graph),
        closed.represents(graph, root),
        candidates_of(closed, list),
        0 <= k < list.len(),
        0 <= e < closed.originals@.len(),
        e != list[k].entry,
        list[k].nodes@.contains(closed.edges@[e].to),
    ensures
        list[k].nodes@.contains(closed.edges@[e].from),
{
    let edges = closed.edges@;
    let m = closed.ids@.len() as int;
    let c = list[k];
    let part = edges.subrange(0, closed.originals@.len() as int);
    assert(part[e] == edges[e]);
    assert(is_region(edges, m + 1, c.entry as int, c.exit as int, c.nodes@));
    law_closed_flow_is_rooted(graph, root, closed, edges[e].from as int);
    law_single_entry(
        edges,
        m + 1,
        closed.entry as int,
        m,
        c.entry as int,
        c.exit as int,
        e,
    );
}

/// The identifiers of a closed flow graph grow.
pub proof fn lemma_ids_grow<G: Graph>(
    graph: &G,
    root: G::NodeId,
    closed: ClosedFlow<G::NodeId, G::EdgeId>,
    x: int,
    y: int,
)
    requires
        closed.represents(graph, root),
        0 <= x < y < closed.ids@.len(),
    ensures
        closed.ids@[x].spec_index() < closed.ids@[y].spec_index(),
{
    let e = flow(graph);
    assert(closed.ids@.contains(closed.ids@[x]));
    assert(reaches(e, root, closed.ids@[x]));
    assert(closed.ids@[x].spec_index() < closed.ids@[y].spec_index());
}

/// Regions that are entered over different edges do not have the same nodes.
pub proof fn law_regions_differ_by_entry<G: Graph>(
    graph: &G,
    root: G::NodeId,
    closed: ClosedFlow<G::NodeId, G::EdgeId>,
    list: Seq<Candidate>,
    k: int,
    l: int,
)
    requires
        is_navigable(graph),
        closed.represents(graph, root),
        candidates_of(closed, list),
        0 <= k < list.len(),
        0 <= l < list.len(),
        list[k].entry != list[l].entry,
    ensures
        list[k].nodes@ != list[l].nodes@,
{
    if list[k].nodes@ == list[l].nodes@ {
        let part = closed.edges@.subrange(0, closed.originals@.len() as int);
        assert forall|e: int|
            #![trigger closed.edges@[e]]
            0 <= e < closed.originals@.len() implies closed.edges@[e].to < closed.ids@.len() by {
            assert(part[e] == closed.edges@[e]);
        }
        lemma_entry_of_candidate(closed, list, k);
        let e = list[k].entry as int;
        law_regions_have_a_single_entry(graph, root, closed, list, l, e);
    }
}

/// The entry edge of a candidate leads into it, from outside.
pub proof fn lemma_entry_of_candidate<N, E>(
    closed: ClosedFlow<N, E>,
    list: Seq<Candidate>,
    k: int,
)
    requires
        closed.originals@.len() <= closed.edges@.len(),
        forall|e: int|
            #![trigger closed.edges@[e]]
            0 <= e < closed.originals@.len() ==> closed.edges@[e].to < closed.ids@.len(),
        candidates_of(closed, list),
        0 <= k < list.len(),
    ensures
        list[k].nodes@.contains(closed.edges@[list[k].entry as int].to),
        !list[k].nodes@.contains(closed.edges@[list[k].entry as int].from),
{
    let edges = closed.edges@;
    let m = closed.ids@.len() as int;
    let c = list[k];
    law_entry_leads_inside(edges, m + 1, closed.entry as int, m, c.entry as int, c.exit as int);
    assert(is_region(edges, m + 1, c.entry as int, c.exit as int, c.nodes@));
    assert(edges[c.entry as int].to < m);
}

/// The nodes of each region of a graph are left over the exit edge alone: any other edge of
/// the graph from one of them leads to one of them, provided that the end of the flow can
/// be reached from there.
pub proof fn law_regions_have_a_single_exit<G: Graph>(
    graph: &G,
    root: G::NodeId,
    closed: ClosedFlow<G::NodeId, G::EdgeId>,
    list: Seq<Candidate>,
    k: int,
    e: int,
)
    requires
        closed.represents(graph, root),
        candidates_of(closed, list),
        0 <= k < list.len(),
        0 <= e < closed.originals@.len(),
        e != list[k].exit,
        is_rooted(closed.edges@, closed.edges@[e].to as int, closed.ids@.len() as int),
        list[k].nodes@.contains(closed.edges@[e].from),
    ensures
        list[k].nodes@.contains(closed.edges@[e].to),
{
    let edges = closed.edges@;
    let m = closed.ids@.len() as int;
    let c = list[k];
    let part = edges.subrange(0, closed.originals@.len() as int);
    assert(part[e] == edges[e]);
    assert(is_region(edges, m + 1, c.entry as int, c.exit as int, c.nodes@));
    law_single_exit(
        edges,
        m + 1,
        closed.entry as int,
        m,
        c.entry as int,
        c.exit as int,
        e,
    );
}

/// An edge between reachable nodes is no loop.
proof fn lemma_inner_is_no_loop<G: Graph>(graph: &G, ids: Seq<G::NodeId>, list: Seq<G::EdgeId>, i: int)
    requires
        0 <= i < inner_edges(graph, ids, list).len(),
    ensures
        ({
            let e = inner_edges(graph, ids, list)[i];
            graph.spec_from(e) != graph.spec_to(e)
        }),
    decreases list.len(),
{
    let rest = inner_edges(graph, ids, list.drop_last());
    if i < rest.len() {
        lemma_inner_is_no_loop(graph, ids, list.drop_last(), i);
    }
}

/// Self-loops do not form the boundaries of regions.
pub proof fn law_boundaries_are_no_loops<G: Graph>(
    graph: &G,
    root: G::NodeId,
    tree: SeseTree<G::NodeId, G::EdgeId>,
    r: int,
)
    requires
        is_sese_tree(graph, root, tree),
        1 <= r < tree.regions@.len(),
    ensures
        tree.regions@[r].entry_edge matches Some(e) && graph.spec_from(e) != graph.spec_to(e),
        tree.regions@[r].exit_edge matches Some(e) && graph.spec_from(e) != graph.spec_to(e),
{
    let (closed, list, selected, sets, parent, children, owned) = choose|
        closed: ClosedFlow<G::NodeId, G::EdgeId>,
        list: Seq<Candidate>,
        selected: Seq<usize>,
        sets: Seq<Vec<usize>>,
        parent: Seq<usize>,
        children: Seq<Vec<usize>>,
        owned: Seq<Vec<usize>>,
    |
        {
            &&& #[trigger] closed.represents(graph, root)
            &&& candidates_of(closed, list)
            &&& #[trigger] is_tree_of(
                closed,
                list,
                selected,
                sets,
                parent,
                children,
                owned,
                tree.regions@,
            )
        };
    lemma_selection_laminar(list, selected);
    let c = list[selected[r - 1] as int];
    assert(is_region(
        closed.edges@,
        (closed.ids@.len() + 1) as int,
        c.entry as int,
        c.exit as int,
        c.nodes@,
    ));
    assert(tree.regions@[r].entry_edge == Some(closed.originals@[c.entry as int]));
    assert(tree.regions@[r].exit_edge == Some(closed.originals@[c.exit as int]));
    lemma_inner_is_no_loop(graph, closed.ids@, graph.spec_edges(), c.entry as int);
    lemma_inner_is_no_loop(graph, closed.ids@, graph.spec_edges(), c.exit as int);
}

} // verus!
