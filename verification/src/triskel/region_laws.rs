//! What holds of every tree of layout regions: each region is covered by the nodes it owns
//! and by its child regions, so that its quotient can be laid out.
use crate::graph::analysis::nesting::{
    first_smallest, holders, holds_all, hosts, is_increasing, is_laminar, is_ownership,
    lists_children, overlaps, owns,
};
use crate::graph::analysis::sese::{
    candidates_of, ends_below, is_candidate, is_candidate_list, is_region, is_sese_tree, is_tree_of, lemma_selection_laminar,
    lemma_selection_order, picked, shares_boundary, Candidate, ClosedFlow, IEdge,
    SeseTree,
};
use crate::graph::analysis::sese_laws::{
    law_regions_differ_by_entry, lemma_entry_of_candidate, lemma_ids_grow,
};
use crate::graph::{is_navigable, Graph};
use crate::registry::Identifier;
use crate::sorting::comes_before;
use crate::triskel::hammock::{
    are_hammocks, has_boundaries, law_hammocks_have_boundaries, lemma_nodes_below, sorts,
    DenseHammock, Part,
};
use crate::triskel::quotient::{child_with, entity, has_children, is_covered};
use crate::triskel::region_tree::{
    are_inner, are_layout_regions, are_moved, are_sese_cuts, are_sese_regions, chosen_cuts,
    cut_keys, has_hammocks, is_below, is_flow_graph, is_inner_edge, is_layout_tree, is_mixed_tree,
    is_nested, is_range, is_real, is_stripped, lemma_flow_graph_navigable, lemma_real_regions,
    lowered, moved_edges, names_tree, normalized_edges, real_above, real_cuts, real_regions, Cut,
    FlowGraph, RawCandidate, RawRegion, RegionTree,
};
use vstd::prelude::*;

verus! {

// Increasing lists.

/// In an increasing list, places grow with what is at them.
proof fn lemma_place_grows(a: Seq<usize>, b: Seq<usize>, i: int)
    requires
        is_increasing(a),
        is_increasing(b),
        holds_all(a, b),
        0 <= i < b.len(),
    ensures
        i <= a.index_of(b[i]) < a.len(),
        a[a.index_of(b[i])] == b[i],
    decreases i,
{
    assert(a.contains(b[i]));
    if i > 0 {
        lemma_place_grows(a, b, i - 1);
        let (x, y) = (a.index_of(b[i - 1]), a.index_of(b[i]));
        assert(b[i - 1] < b[i]);
        if y <= x {
            if y < x {
                assert(a[y] < a[x]);
            }
        }
    }
}

/// A part of an increasing list is no longer than the list.
proof fn lemma_part_is_shorter(a: Seq<usize>, b: Seq<usize>)
    requires
        is_increasing(a),
        is_increasing(b),
        holds_all(a, b),
    ensures
        b.len() <= a.len(),
{
    if b.len() > 0 {
        lemma_place_grows(a, b, b.len() - 1);
    }
}

/// A part of an increasing list that is as long as the list is the whole of it.
proof fn lemma_whole_part(a: Seq<usize>, b: Seq<usize>, i: int)
    requires
        is_increasing(a),
        is_increasing(b),
        holds_all(a, b),
        a.len() == b.len(),
        0 <= i < b.len(),
    ensures
        a[i] == b[i],
    decreases b.len() - i,
{
    lemma_place_grows(a, b, i);
    let x = a.index_of(b[i]);
    if i < b.len() - 1 {
        lemma_whole_part(a, b, i + 1);
        assert(b[i] < b[i + 1]);
        if x > i {
            if x > i + 1 {
                assert(a[i + 1] < a[x]);
            }
        }
    }
}

// Families.

/// Regions are increasing lists of which any two are disjoint or one holds the other
/// and is longer; each but the outermost hangs below the smallest that is longer than it
/// and holds it.
pub open spec fn is_family(tree: RegionTree, n: int) -> bool {
    let sets = tree.sets@;
    &&& sets.len() > 0
    &&& tree.parent@.len() == sets.len()
    &&& tree.children@.len() == sets.len()
    &&& is_range(sets[0]@, n)
    &&& forall|r: int|
        #![trigger sets[r]]
        0 <= r < sets.len() ==> is_increasing(sets[r]@) && holds_all(sets[0]@, sets[r]@)
    &&& forall|r: int, q: int|
        0 <= r < sets.len() && 0 <= q < sets.len() && r != q && overlaps(
            (#[trigger] sets[r])@,
            (#[trigger] sets[q])@,
        ) ==> is_laminar(sets[r]@, sets[q]@) && sets[r]@.len() != sets[q]@.len()
    &&& forall|j: int|
        #![trigger tree.parent@[j]]
        1 <= j < sets.len() ==> tree.parent@[j] < j && holds_all(
            sets[tree.parent@[j] as int]@,
            sets[j]@,
        )
    &&& forall|j: int, r: int|
        #![trigger tree.parent@[j], sets[r]]
        1 <= j < sets.len() && 0 <= r < sets.len() && holds_all(sets[r]@, sets[j]@)
            && sets[j]@.len() < sets[r]@.len() && sets[j]@.len() > 0
            ==> sets[tree.parent@[j] as int]@.len() <= sets[r]@.len()
    &&& lists_children(tree.parent@, tree.children@, sets.len() as int)
}

/// A region with a smaller region inside it that holds `v` has a child that holds `v`.
proof fn lemma_some_child(tree: RegionTree, n: int, r: int, c: int, v: usize) -> (child: usize)
    requires
        is_family(tree, n),
        0 <= r < tree.sets@.len(),
        0 <= c < tree.sets@.len() <= usize::MAX,
        c != r,
        tree.sets@[r]@.contains(v),
        tree.sets@[c]@.contains(v),
        tree.sets@[c]@.len() <= tree.sets@[r]@.len(),
    ensures
        tree.children@[r]@.contains(child),
        tree.sets@[child as int]@.contains(v),
    decreases c,
{
    let sets = tree.sets@;
    let (a, b) = (sets[c]@, sets[r]@);
    assert(overlaps(a, b)) by {
        assert(b.contains(a[a.index_of(v)]));
    }
    if holds_all(a, b) {
        lemma_part_is_shorter(a, b);
    }
    assert(holds_all(b, a));
    if c == 0 {
        assert(holds_all(a, b));
        assert(false);
    }
    let p = tree.parent@[c] as int;
    assert(sets[p]@.len() <= b.len());
    assert(holds_all(sets[p]@, a));
    assert(sets[p]@.contains(a[a.index_of(v)]));
    if p == r {
        assert(tree.children@[r]@.contains(c as usize));
        c as usize
    } else {
        lemma_some_child(tree, n, r, p, v)
    }
}

/// The region that owns a node.
proof fn lemma_some_owner(tree: RegionTree, lo: int, n: int, v: usize) -> (o: int)
    requires
        is_family(tree, n),
        0 <= lo <= 1,
        is_ownership(tree.sets@, lo, n, tree.owned@),
        v < n,
    ensures
        0 <= o < tree.sets@.len(),
        tree.owned@[o]@.contains(v),
        tree.sets@[o]@.contains(v),
        forall|r: int|
            0 <= r < tree.sets@.len() && (#[trigger] tree.sets@[r])@.contains(v)
                ==> tree.sets@[o]@.len() <= tree.sets@[r]@.len(),
{
    let sets = tree.sets@;
    assert(sets[0]@[v as int] == v);
    if exists|k: int| lo <= k < sets.len() && #[trigger] hosts(sets, v)(k) {
        let o = lemma_smallest_from(sets, hosts(sets, v), lo, sets.len() as int);
        assert(owns(sets, lo, v, o));
        assert(hosts(sets, v)(o));
        assert forall|r: int|
            0 <= r < sets.len() && (#[trigger] sets[r])@.contains(v) implies sets[o]@.len()
            <= sets[r]@.len() by {
            if r >= lo {
                assert(hosts(sets, v)(r));
            } else {
                lemma_part_is_shorter(sets[0]@, sets[o]@);
            }
        }
        assert(tree.owned@[o]@.contains(v));
        o
    } else {
        assert(owns(sets, lo, v, 0));
        assert(tree.owned@[0]@.contains(v));
        assert forall|r: int|
            0 <= r < sets.len() && (#[trigger] sets[r])@.contains(v) implies sets[0]@.len()
            <= sets[r]@.len() by {
            if r >= lo {
                assert(hosts(sets, v)(r));
            }
        }
        0
    }
}

/// Among sets of which one fits there is a first smallest one.
proof fn lemma_smallest_from(
    sets: Seq<Vec<usize>>,
    fits: spec_fn(int) -> bool,
    lo: int,
    hi: int,
) -> (best: int)
    requires
        0 <= lo < hi <= sets.len(),
        exists|k: int| lo <= k < hi && #[trigger] fits(k),
    ensures
        first_smallest(sets, fits, lo, hi, best),
    decreases hi - lo,
{
    let last = hi - 1;
    if exists|k: int| lo <= k < last && #[trigger] fits(k) {
        let best = lemma_smallest_from(sets, fits, lo, last);
        if fits(last) && sets[last]@.len() < sets[best]@.len() {
            last
        } else {
            best
        }
    } else {
        last
    }
}

proof fn lemma_child_with(tree: RegionTree, children: Seq<usize>, k: int, v: usize, i: int)
    requires
        0 <= i < k <= children.len(),
        tree.sets@[children[i] as int]@.contains(v),
    ensures
        child_with(tree, children, k, v) is Some,
    decreases k,
{
    if i < k - 1 && !tree.sets@[children[k - 1] as int]@.contains(v) {
        lemma_child_with(tree, children, k - 1, v, i);
    }
}

/// In a family every node of a region is owned by it or lies in a child region.
proof fn lemma_family_covers(tree: RegionTree, lo: int, n: int, r: int)
    requires
        is_family(tree, n),
        tree.sets@.len() <= usize::MAX,
        0 <= lo <= 1,
        is_ownership(tree.sets@, lo, n, tree.owned@),
        0 <= r < tree.sets@.len(),
    ensures
        is_covered(tree, r),
{
    assert forall|i: int| 0 <= i < tree.sets@[r]@.len() implies entity(
        tree,
        r,
        #[trigger] tree.sets@[r]@[i],
    ) is Some by {
        let v = tree.sets@[r]@[i];
        assert(tree.sets@[r]@.contains(v));
        assert(tree.sets@[0]@.contains(tree.sets@[r]@[i]));
        assert(v < n);
        let o = lemma_some_owner(tree, lo, n, v);
        if o != r {
            let child = lemma_some_child(tree, n, r, o, v);
            let children = tree.children@[r]@;
            lemma_child_with(tree, children, children.len() as int, v, children.index_of(child));
        }
    }
}

// Hammocks and the regions nested in them.

/// An increasing list of nodes, entered at one of them.
spec fn is_good_cut(cut: Cut, edges: Seq<IEdge>, n: int) -> bool {
    &&& is_increasing(cut.nodes)
    &&& cut.nodes.len() > 0
    &&& forall|i: int| 0 <= i < cut.nodes.len() ==> #[trigger] cut.nodes[i] < n
    &&& cut.entry < edges.len()
    &&& cut.nodes.contains(edges[cut.entry as int].to)
}

/// The nodes of a real region of a normalized flow graph make a good cut.
proof fn lemma_good_cut(
    graph: &FlowGraph,
    n: int,
    root: int,
    edges: Seq<IEdge>,
    closed: ClosedFlow<usize, usize>,
    list: Seq<Candidate>,
    j: int,
    nodes: Seq<usize>,
    entry: usize,
)
    requires
        0 <= root < n,
        n + 2 < usize::MAX,
        edges.len() < usize::MAX,
        ends_below(edges, n),
        is_flow_graph(graph, n + 2, normalized_edges(n, root, edges)),
        closed.represents(graph, 0usize),
        candidates_of(closed, list),
        0 <= j < list.len(),
        nodes == picked(closed.ids@, list[j].nodes@),
        entry == closed.originals@[list[j].entry as int],
        is_inner_edge(entry as int, edges.len() as int),
        are_inner(nodes, n),
    ensures
        is_good_cut(
            Cut { nodes: lowered(nodes), entry: (entry - 1) as usize, exit: 0 },
            edges,
            n,
        ),
{
    let c = list[j];
    let m = closed.ids@.len() as int;
    let ids = closed.ids@;
    let low = lowered(nodes);
    let part = closed.edges@.subrange(0, closed.originals@.len() as int);
    assert(is_region(closed.edges@, m + 1, c.entry as int, c.exit as int, c.nodes@));
    assert forall|i: int| 0 <= i < c.nodes@.len() implies #[trigger] c.nodes@[i] < m by {
        assert(c.nodes@.contains(c.nodes@[i]));
    }
    assert forall|a: int, b: int| 0 <= a < b < low.len() implies #[trigger] low[a] < #[trigger] low[b] by {
        let (x, y) = (c.nodes@[a] as int, c.nodes@[b] as int);
        assert(0 <= x < y < m);
        lemma_ids_grow(graph, 0usize, closed, x, y);
        assert(ids[x].spec_index() < ids[y].spec_index());
        assert(nodes[a] == ids[x] && nodes[b] == ids[y]);
        assert(2 <= nodes[a] && 2 <= nodes[b]);
    }
    assert forall|i: int| 0 <= i < low.len() implies #[trigger] low[i] < n by {
        assert(2 <= nodes[i] < n + 2);
    }
    assert forall|e: int|
        #![trigger closed.edges@[e]]
        0 <= e < closed.originals@.len() implies closed.edges@[e].to < closed.ids@.len() by {
        assert(part[e] == closed.edges@[e]);
    }
    lemma_entry_of_candidate(closed, list, j);
    let a = c.entry as int;
    assert(part[a] == closed.edges@[a]);
    let to = closed.edges@[a].to;
    assert(ids[to as int] == graph.spec_to(entry));
    let all = normalized_edges(n, root, edges);
    assert(all[entry as int] == moved_edges(edges)[entry - 1]);
    assert(graph.edge_map().contains_key(entry));
    assert(edges[entry - 1].to < n);
    assert(graph.spec_to(entry) == (edges[entry - 1].to + 2) as usize);
    let k = c.nodes@.index_of(to);
    assert(nodes[k] == ids[to as int]);
    assert(low[k] == edges[entry - 1].to);
}

proof fn lemma_good_cuts(
    graph: &FlowGraph,
    n: int,
    root: int,
    edges: Seq<IEdge>,
    closed: ClosedFlow<usize, usize>,
    list: Seq<Candidate>,
    found: Seq<RawCandidate>,
    k: int,
)
    requires
        0 <= root < n,
        n + 2 < usize::MAX,
        edges.len() < usize::MAX,
        ends_below(edges, n),
        is_flow_graph(graph, n + 2, normalized_edges(n, root, edges)),
        closed.represents(graph, 0usize),
        candidates_of(closed, list),
        found.len() == list.len(),
        forall|i: int| 0 <= i < found.len() ==> is_candidate(closed, list[i], #[trigger] found[i]),
        0 <= k <= found.len(),
    ensures
        forall|i: int|
            #![trigger real_cuts(found, n, edges.len() as int, k)[i]]
            0 <= i < real_cuts(found, n, edges.len() as int, k).len() ==> is_good_cut(
                real_cuts(found, n, edges.len() as int, k)[i],
                edges,
                n,
            ),
    decreases k,
{
    if k > 0 {
        let m = edges.len() as int;
        lemma_good_cuts(graph, n, root, edges, closed, list, found, k - 1);
        let c = found[k - 1];
        assert(is_candidate(closed, list[k - 1], found[k - 1]));
        let before = real_cuts(found, n, m, k - 1);
        let cuts = real_cuts(found, n, m, k);
        if is_inner_edge(c.entry_edge as int, m) && is_inner_edge(c.exit_edge as int, m)
            && are_inner(c.contained_nodes@, n) {
            lemma_good_cut(
                graph,
                n,
                root,
                edges,
                closed,
                list,
                k - 1,
                c.contained_nodes@,
                c.entry_edge,
            );
        }
        assert forall|i: int| #![trigger cuts[i]] 0 <= i < cuts.len() implies is_good_cut(cuts[i], edges, n) by {
            if i < before.len() {
                assert(cuts[i] == before[i]);
            }
        }
    }
}

/// Chosen candidates are nested in hammocks, and any two that overlap are nested and
/// differ.
proof fn lemma_chosen(cuts: Seq<Cut>, hammocks: Seq<DenseHammock>, k: int)
    requires
        0 <= k <= cuts.len() <= usize::MAX,
    ensures
        forall|i: int|
            #![trigger chosen_cuts(cuts, hammocks, k)[i]]
            0 <= i < chosen_cuts(cuts, hammocks, k).len() ==> chosen_cuts(cuts, hammocks, k)[i] < k
                && is_nested(cuts[chosen_cuts(cuts, hammocks, k)[i] as int], hammocks),
        forall|i: int, j: int|
            0 <= i < j < chosen_cuts(cuts, hammocks, k).len() ==> {
                let a = cuts[#[trigger] chosen_cuts(cuts, hammocks, k)[i] as int].nodes;
                let b = cuts[#[trigger] chosen_cuts(cuts, hammocks, k)[j] as int].nodes;
                is_laminar(b, a) && a != b
            },
    decreases k,
{
    if k > 0 {
        lemma_chosen(cuts, hammocks, k - 1);
        let before = chosen_cuts(cuts, hammocks, k - 1);
        let now = chosen_cuts(cuts, hammocks, k);
        assert forall|i: int, j: int| 0 <= i < j < now.len() implies {
            let a = cuts[#[trigger] now[i] as int].nodes;
            let b = cuts[#[trigger] now[j] as int].nodes;
            is_laminar(b, a) && a != b
        } by {
            if j < before.len() {
                assert(now[i] == before[i] && now[j] == before[j]);
            } else {
                assert(now[i] == before[i]);
            }
        }
    }
}

/// One of the first `h` sets after the outermost is larger than a list and holds it.
spec fn has_host(sets: Seq<Vec<usize>>, h: int, inner: Seq<usize>) -> bool {
    exists|k: int|
        1 <= k <= h && (#[trigger] sets[k])@.len() > inner.len() && holds_all(sets[k]@, inner)
}

/// What is known of the single regions of a mixed tree: hammocks are not empty and do not
/// hold all nodes, and the other regions are smaller than a hammock that holds them.
spec fn is_sorted_out(tree: RegionTree, n: int, h: int) -> bool {
    let sets = tree.sets@;
    &&& h < sets.len()
    &&& is_range(sets[0]@, n)
    &&& forall|i: int|
        #![trigger sets[i]]
        1 <= i < sets.len() ==> is_increasing(sets[i]@) && sets[i]@.len() > 0 && forall|k: int|
            0 <= k < sets[i]@.len() ==> #[trigger] sets[i]@[k] < n
    &&& forall|i: int| #![trigger sets[i]] 1 <= i <= h ==> sets[i]@.len() < n
    &&& forall|i: int, j: int, v: usize|
        1 <= i < j <= h && #[trigger] sets[i]@.contains(v) ==> !#[trigger] sets[j]@.contains(v)
    &&& forall|i: int|
        #![trigger sets[i]]
        h < i < sets.len() ==> has_host(sets, h, sets[i]@)
    &&& forall|i: int, j: int|
        h < i < sets.len() && h < j < sets.len() && i != j ==> is_laminar(
            (#[trigger] sets[i])@,
            (#[trigger] sets[j])@,
        ) && sets[i]@ != sets[j]@
    &&& forall|i: int, j: int|
        h < i < j < sets.len() ==> (#[trigger] sets[j])@.len() <= (#[trigger] sets[i])@.len()
}

proof fn lemma_range_holds(list: Seq<usize>, n: int, part: Seq<usize>)
    requires
        is_range(list, n),
        forall|k: int| 0 <= k < part.len() ==> #[trigger] part[k] < n,
    ensures
        is_increasing(list),
        holds_all(list, part),
{
    assert forall|k: int| 0 <= k < part.len() implies list.contains(#[trigger] part[k]) by {
        assert(list[part[k] as int] == part[k]);
    }
}

/// A hammock that shares a node with a smaller region holds it.
proof fn lemma_same_hammock(tree: RegionTree, n: int, h: int, r: int, q: int, v: usize)
    requires
        is_sorted_out(tree, n, h),
        1 <= r <= h < q < tree.sets@.len(),
        tree.sets@[r]@.contains(v),
        tree.sets@[q]@.contains(v),
    ensures
        tree.sets@[q]@.len() < tree.sets@[r]@.len(),
        holds_all(tree.sets@[r]@, tree.sets@[q]@),
{
    let sets = tree.sets@;
    let inner = sets[q]@;
    assert(has_host(sets, h, inner));
    let k = choose|k: int|
        1 <= k <= h && (#[trigger] sets[k])@.len() > inner.len() && holds_all(sets[k]@, inner);
    assert(sets[k]@.contains(inner[inner.index_of(v)]));
    if k < r {
        assert(!sets[r]@.contains(v));
    } else if r < k {
        assert(!sets[k]@.contains(v));
    }
}

/// Two regions of a mixed tree that share a node are nested, and one is larger.
proof fn lemma_mixed_pair(tree: RegionTree, n: int, h: int, r: int, q: int, v: usize)
    requires
        is_sorted_out(tree, n, h),
        0 <= r < tree.sets@.len(),
        0 <= q < tree.sets@.len(),
        r != q,
        tree.sets@[r]@.contains(v),
        tree.sets@[q]@.contains(v),
    ensures
        is_laminar(tree.sets@[r]@, tree.sets@[q]@),
        tree.sets@[r]@.len() != tree.sets@[q]@.len(),
{
    let sets = tree.sets@;
    let (a, b) = (sets[r]@, sets[q]@);
    if r == 0 || q == 0 {
        let k = if r == 0 {
            q
        } else {
            r
        };
        lemma_range_holds(sets[0]@, n, sets[k]@);
        if k > h {
            let inner = sets[k]@;
            assert(has_host(sets, h, inner));
            let j = choose|j: int|
                1 <= j <= h && (#[trigger] sets[j])@.len() > inner.len() && holds_all(
                    sets[j]@,
                    inner,
                );
            assert(sets[j]@.len() < n);
        }
    } else if r <= h && q <= h {
        if r < q {
            assert(!sets[q]@.contains(v));
        } else {
            assert(!sets[r]@.contains(v));
        }
    } else if r <= h {
        lemma_same_hammock(tree, n, h, r, q, v);
    } else if q <= h {
        lemma_same_hammock(tree, n, h, q, r, v);
    } else {
        assert(overlaps(a, b)) by {
            assert(b.contains(a[a.index_of(v)]));
        }
        if a.len() == b.len() {
            if holds_all(a, b) {
                assert forall|i: int| 0 <= i < a.len() implies a[i] == b[i] by {
                    lemma_whole_part(a, b, i);
                }
            } else {
                assert forall|i: int| 0 <= i < a.len() implies a[i] == b[i] by {
                    lemma_whole_part(b, a, i);
                }
            }
            assert(a =~= b);
        }
    }
}

/// Hammocks hang below the outermost region, the other regions below the smallest earlier
/// one that holds them.
proof fn lemma_mixed_family(tree: RegionTree, n: int, h: int)
    requires
        is_sorted_out(tree, n, h),
        0 <= h,
        tree.parent@.len() == tree.sets@.len(),
        tree.children@.len() == tree.sets@.len(),
        forall|i: int| 1 <= i <= h ==> #[trigger] tree.parent@[i] == 0,
        forall|i: int|
            #![trigger tree.sets@[i]]
            h < i < tree.sets@.len() ==> first_smallest(
                tree.sets@,
                holders(tree.sets@, tree.sets@[i]@),
                0,
                i,
                tree.parent@[i] as int,
            ),
        lists_children(tree.parent@, tree.children@, tree.sets@.len() as int),
    ensures
        is_family(tree, n),
{
    let sets = tree.sets@;
    assert forall|r: int|
        #![trigger sets[r]]
        0 <= r < sets.len() implies is_increasing(sets[r]@) && holds_all(sets[0]@, sets[r]@) by {
        if r == 0 {
            assert forall|k: int| 0 <= k < sets[0]@.len() implies #[trigger] sets[0]@[k] < n by {}
        }
        lemma_range_holds(sets[0]@, n, sets[r]@);
    }
    assert forall|r: int, q: int|
        0 <= r < sets.len() && 0 <= q < sets.len() && r != q && overlaps(
            (#[trigger] sets[r])@,
            (#[trigger] sets[q])@,
        ) implies is_laminar(sets[r]@, sets[q]@) && sets[r]@.len() != sets[q]@.len() by {
        let i = choose|i: int| 0 <= i < sets[r]@.len() && sets[q]@.contains(#[trigger] sets[r]@[i]);
        lemma_mixed_pair(tree, n, h, r, q, sets[r]@[i]);
    }
    assert forall|j: int| #![trigger tree.parent@[j]] 1 <= j < sets.len() implies tree.parent@[j] < j
        && holds_all(sets[tree.parent@[j] as int]@, sets[j]@) by {
        if j <= h {
            assert(sets[j]@.len() < n);
            assert(holds_all(sets[0]@, sets[j]@));
        } else {
            assert(sets[j]@.len() > 0);
            assert(holders(sets, sets[j]@)(tree.parent@[j] as int));
        }
    }
    assert forall|j: int, r: int|
        #![trigger tree.parent@[j], sets[r]]
        1 <= j < sets.len() && 0 <= r < sets.len() && holds_all(sets[r]@, sets[j]@)
            && sets[j]@.len() < sets[r]@.len() && sets[j]@.len()
            > 0 implies sets[tree.parent@[j] as int]@.len() <= sets[r]@.len() by {
        let v = sets[j]@[0];
        assert(sets[j]@.contains(v));
        assert(sets[r]@.contains(v));
        if j <= h {
            if 1 <= r <= h {
                if j < r {
                    assert(!sets[r]@.contains(v));
                } else if r < j {
                    assert(!sets[j]@.contains(v));
                }
            } else if r > h {
                lemma_same_hammock(tree, n, h, j, r, v);
            }
            assert(r == 0);
        } else {
            if r > j {
                assert(sets[r]@.len() <= sets[j]@.len());
            }
            assert(r < j);
            assert(holders(sets, sets[j]@)(r));
        }
    }
}

/// The first of two boundary edges leads into the list.
pub open spec fn leads_into(
    edges: Seq<IEdge>,
    bounds: Option<(usize, usize)>,
    list: Seq<usize>,
) -> bool {
    bounds matches Some(b) && b.0 < edges.len() && list.contains(edges[b.0 as int].to)
}

/// The entry edge of each region but the outermost leads into it.
pub open spec fn has_entries(tree: RegionTree, edges: Seq<IEdge>) -> bool {
    forall|r: int|
        #![trigger tree.sets@[r]]
        1 <= r < tree.sets@.len() ==> leads_into(edges, tree.bounds@[r], tree.sets@[r]@)
}

/// What is known where a mixed tree is made.
spec fn is_mixed(
    n: int,
    root: int,
    edges: Seq<IEdge>,
    hammocks: Seq<DenseHammock>,
    cuts: Seq<Cut>,
    order: Seq<usize>,
    tree: RegionTree,
) -> bool {
    &&& 0 <= root < n
    &&& n + 2 < usize::MAX
    &&& cuts.len() <= usize::MAX
    &&& ends_below(edges, n)
    &&& are_hammocks(n as usize, root as usize, edges, hammocks)
    &&& forall|i: int| #![trigger cuts[i]] 0 <= i < cuts.len() ==> is_good_cut(cuts[i], edges, n)
    &&& is_mixed_tree(n, hammocks, cuts, order, tree)
}

proof fn lemma_hammock_region(
    n: int,
    root: int,
    edges: Seq<IEdge>,
    hammocks: Seq<DenseHammock>,
    cuts: Seq<Cut>,
    order: Seq<usize>,
    tree: RegionTree,
    i: int,
)
    requires
        is_mixed(n, root, edges, hammocks, cuts, order, tree),
        1 <= i <= hammocks.len(),
    ensures
        tree.sets@[i]@ == hammocks[i - 1].nodes@,
        is_increasing(tree.sets@[i]@),
        0 < tree.sets@[i]@.len() < n,
        forall|k: int| 0 <= k < tree.sets@[i]@.len() ==> #[trigger] tree.sets@[i]@[k] < n,
        leads_into(edges, tree.bounds@[i], tree.sets@[i]@),
{
    let sets = tree.sets@;
    let found = hammocks[i - 1];
    law_hammocks_have_boundaries(n as usize, root as usize, edges, hammocks);
    lemma_nodes_below(n as usize, root as usize, edges, hammocks, i - 1);
    assert(sets[i]@ == found.nodes@);
    assert(has_boundaries(
        edges,
        found.nodes@,
        edges[found.entry_edge as int],
        edges[found.exit_edge as int],
    ));
    let missing = edges[found.exit_edge as int].to;
    assert(edges[found.exit_edge as int].to < n);
    lemma_range_holds(sets[0]@, n, sets[i]@);
    lemma_part_is_shorter(sets[0]@, sets[i]@);
    if sets[i]@.len() == n {
        lemma_whole_part(sets[0]@, sets[i]@, missing as int);
        assert(sets[i]@[missing as int] == missing);
    }
}

proof fn lemma_cut_region(
    n: int,
    root: int,
    edges: Seq<IEdge>,
    hammocks: Seq<DenseHammock>,
    cuts: Seq<Cut>,
    order: Seq<usize>,
    tree: RegionTree,
    i: int,
)
    requires
        is_mixed(n, root, edges, hammocks, cuts, order, tree),
        hammocks.len() < i < tree.sets@.len(),
    ensures
        ({
            let h = hammocks.len() as int;
            let chosen = chosen_cuts(cuts, hammocks, cuts.len() as int);
            let p = order[i - 1 - h] as int;
            &&& order.len() == chosen.len()
            &&& 0 <= p < chosen.len()
            &&& tree.sets@[i]@ == cuts[chosen[p] as int].nodes
            &&& is_nested(cuts[chosen[p] as int], hammocks)
            &&& cut_keys(cuts, chosen)[p].0 == usize::MAX - tree.sets@[i]@.len()
        }),
        is_increasing(tree.sets@[i]@),
        0 < tree.sets@[i]@.len(),
        forall|k: int| 0 <= k < tree.sets@[i]@.len() ==> #[trigger] tree.sets@[i]@[k] < n,
        leads_into(edges, tree.bounds@[i], tree.sets@[i]@),
{
    let h = hammocks.len() as int;
    let chosen = chosen_cuts(cuts, hammocks, cuts.len() as int);
    let p = order[i - 1 - h] as int;
    lemma_chosen(cuts, hammocks, cuts.len() as int);
    assert(order.len() == chosen.len());
    assert(0 <= p < chosen.len());
    let c = chosen[p] as int;
    assert(tree.sets@[i]@ == cuts[c].nodes);
    assert(is_good_cut(cuts[c], edges, n));
    lemma_range_holds(tree.sets@[0]@, n, tree.sets@[i]@);
    lemma_part_is_shorter(tree.sets@[0]@, tree.sets@[i]@);
}

/// The hammock in which a smaller region is nested.
proof fn lemma_cut_host(
    n: int,
    root: int,
    edges: Seq<IEdge>,
    hammocks: Seq<DenseHammock>,
    cuts: Seq<Cut>,
    order: Seq<usize>,
    tree: RegionTree,
    i: int,
) -> (k: int)
    requires
        is_mixed(n, root, edges, hammocks, cuts, order, tree),
        hammocks.len() < i < tree.sets@.len(),
    ensures
        1 <= k <= hammocks.len(),
        tree.sets@[k]@.len() > tree.sets@[i]@.len(),
        holds_all(tree.sets@[k]@, tree.sets@[i]@),
{
    lemma_cut_region(n, root, edges, hammocks, cuts, order, tree, i);
    let chosen = chosen_cuts(cuts, hammocks, cuts.len() as int);
    let cut = cuts[chosen[order[i - 1 - hammocks.len()] as int] as int];
    let k = choose|k: int|
        #![trigger hammocks[k]]
        0 <= k < hammocks.len() && cut.nodes.len() < hammocks[k].nodes@.len() && holds_all(
            hammocks[k].nodes@,
            cut.nodes,
        );
    lemma_hammock_region(n, root, edges, hammocks, cuts, order, tree, k + 1);
    k + 1
}

/// The regions of a mixed tree are sorted out.
#[verifier::rlimit(80)]
#[verifier::spinoff_prover]
proof fn lemma_mixed_sorted_out(
    n: int,
    root: int,
    edges: Seq<IEdge>,
    hammocks: Seq<DenseHammock>,
    cuts: Seq<Cut>,
    order: Seq<usize>,
    tree: RegionTree,
)
    requires
        is_mixed(n, root, edges, hammocks, cuts, order, tree),
    ensures
        is_sorted_out(tree, n, hammocks.len() as int),
{
    let h = hammocks.len() as int;
    let sets = tree.sets@;
    let chosen = chosen_cuts(cuts, hammocks, cuts.len() as int);
    let keys = cut_keys(cuts, chosen);
    assert forall|i: int| #![trigger sets[i]] 1 <= i < sets.len() implies is_increasing(sets[i]@)
        && sets[i]@.len() > 0 && (forall|k: int|
        0 <= k < sets[i]@.len() ==> #[trigger] sets[i]@[k] < n) by {
        if i <= h {
            lemma_hammock_region(n, root, edges, hammocks, cuts, order, tree, i);
        } else {
            lemma_cut_region(n, root, edges, hammocks, cuts, order, tree, i);
        }
    }
    assert forall|i: int| #![trigger sets[i]] 1 <= i <= h implies sets[i]@.len() < n by {
        lemma_hammock_region(n, root, edges, hammocks, cuts, order, tree, i);
    }
    assert forall|i: int| #![trigger sets[i]] h < i < sets.len() implies has_host(
        sets,
        h,
        sets[i]@,
    ) by {
        let k = lemma_cut_host(n, root, edges, hammocks, cuts, order, tree, i);
        assert(sets[k]@.len() > sets[i]@.len());
    }
    assert forall|i: int, j: int, v: usize|
        1 <= i < j <= h && #[trigger] sets[i]@.contains(v) implies !#[trigger] sets[j]@.contains(v) by {
        law_hammocks_have_boundaries(n as usize, root as usize, edges, hammocks);
        lemma_hammock_region(n, root, edges, hammocks, cuts, order, tree, i);
        lemma_hammock_region(n, root, edges, hammocks, cuts, order, tree, j);
        assert(hammocks[i - 1].nodes@.contains(v));
        assert(!hammocks[j - 1].nodes@.contains(v));
    }
    assert forall|i: int, j: int|
        h < i < sets.len() && h < j < sets.len() && i != j implies is_laminar(
        (#[trigger] sets[i])@,
        (#[trigger] sets[j])@,
    ) && sets[i]@ != sets[j]@ by {
        lemma_cut_region(n, root, edges, hammocks, cuts, order, tree, i);
        lemma_cut_region(n, root, edges, hammocks, cuts, order, tree, j);
        lemma_chosen(cuts, hammocks, cuts.len() as int);
        let (x, y) = (order[i - 1 - h], order[j - 1 - h]);
        assert(x != y) by {
            if i < j {
                assert(comes_before(keys, order[i - 1 - h], order[j - 1 - h]));
            } else {
                assert(comes_before(keys, order[j - 1 - h], order[i - 1 - h]));
            }
        }
        let (a, b) = (cuts[chosen[x as int] as int].nodes, cuts[chosen[y as int] as int].nodes);
        if x < y {
            assert(is_laminar(b, a) && a != b);
            lemma_laminar_turned(b, a);
        } else {
            assert(is_laminar(a, b) && a != b);
        }
    }
    assert forall|i: int, j: int| h < i < j < sets.len() implies (#[trigger] sets[j])@.len() <= (
    #[trigger] sets[i])@.len() by {
        lemma_cut_region(n, root, edges, hammocks, cuts, order, tree, i);
        lemma_cut_region(n, root, edges, hammocks, cuts, order, tree, j);
        assert(comes_before(keys, order[i - 1 - h], order[j - 1 - h]));
    }
}

proof fn lemma_mixed_entries(
    n: int,
    root: int,
    edges: Seq<IEdge>,
    hammocks: Seq<DenseHammock>,
    cuts: Seq<Cut>,
    order: Seq<usize>,
    tree: RegionTree,
)
    requires
        is_mixed(n, root, edges, hammocks, cuts, order, tree),
    ensures
        has_entries(tree, edges),
{
    assert forall|r: int|
        #![trigger tree.sets@[r]]
        1 <= r < tree.sets@.len() implies leads_into(edges, tree.bounds@[r], tree.sets@[r]@) by {
        if r <= hammocks.len() {
            lemma_hammock_region(n, root, edges, hammocks, cuts, order, tree, r);
        } else {
            lemma_cut_region(n, root, edges, hammocks, cuts, order, tree, r);
        }
    }
}

proof fn lemma_laminar_turned(a: Seq<usize>, b: Seq<usize>)
    requires
        is_laminar(a, b),
    ensures
        is_laminar(b, a),
{
    if overlaps(b, a) {
        let i = choose|i: int| 0 <= i < b.len() && a.contains(#[trigger] b[i]);
        let k = a.index_of(b[i]);
        assert(b.contains(a[k]));
        assert(overlaps(a, b));
    }
}

// Canonical regions.

/// A tree of canonical regions of a normalized flow graph, with what it was made from.
struct Canon {
    pub closed: ClosedFlow<usize, usize>,
    pub list: Seq<Candidate>,
    pub selected: Seq<usize>,
    pub sets: Seq<Vec<usize>>,
    pub parent: Seq<usize>,
    pub children: Seq<Vec<usize>>,
    pub owned: Seq<Vec<usize>>,
    pub regions: Seq<RawRegion>,
}

impl Canon {
    spec fn is_made(self, graph: &FlowGraph, n: int, root: int, edges: Seq<IEdge>) -> bool {
        &&& 0 <= root < n
        &&& n + 2 < usize::MAX
        &&& edges.len() < usize::MAX
        &&& ends_below(edges, n)
        &&& is_flow_graph(graph, n + 2, normalized_edges(n, root, edges))
        &&& is_navigable(graph)
        &&& self.closed.represents(graph, 0usize)
        &&& candidates_of(self.closed, self.list)
        &&& is_tree_of(
            self.closed,
            self.list,
            self.selected,
            self.sets,
            self.parent,
            self.children,
            self.owned,
            self.regions,
        )
    }

    /// Each region but the outermost is an increasing list of nodes.
    proof fn lemma_set(self, graph: &FlowGraph, n: int, root: int, edges: Seq<IEdge>, r: int)
        requires
            self.is_made(graph, n, root, edges),
            1 <= r < self.sets.len(),
        ensures
            self.selected[r - 1] < self.list.len(),
            self.sets[r]@ == self.list[self.selected[r - 1] as int].nodes@,
            is_increasing(self.sets[r]@),
            self.sets[r]@.len() > 0,
            forall|k: int|
                0 <= k < self.sets[r]@.len() ==> #[trigger] self.sets[r]@[k]
                    < self.closed.ids@.len(),
            holds_all(self.sets[0]@, self.sets[r]@),
            is_increasing(self.sets[0]@),
    {
        lemma_selection_laminar(self.list, self.selected);
        let c = self.list[self.selected[r - 1] as int];
        let m = self.closed.ids@.len() as int;
        assert(self.sets[r]@ == c.nodes@);
        assert(is_region(self.closed.edges@, m + 1, c.entry as int, c.exit as int, c.nodes@));
        assert forall|k: int| 0 <= k < c.nodes@.len() implies #[trigger] c.nodes@[k] < m by {
            assert(c.nodes@.contains(c.nodes@[k]));
        }
        assert(is_range(self.sets[0]@, m));
        lemma_range_holds(self.sets[0]@, m, self.sets[r]@);
    }

    /// Two regions but the outermost that share a node are nested, and one is larger.
    proof fn lemma_pair(
        self,
        graph: &FlowGraph,
        n: int,
        root: int,
        edges: Seq<IEdge>,
        r: int,
        q: int,
        v: usize,
    )
        requires
            self.is_made(graph, n, root, edges),
            1 <= r < self.sets.len(),
            1 <= q < self.sets.len(),
            r != q,
            self.sets[r]@.contains(v),
            self.sets[q]@.contains(v),
        ensures
            holds_all(self.sets[r]@, self.sets[q]@) || holds_all(self.sets[q]@, self.sets[r]@),
            self.sets[r]@.len() != self.sets[q]@.len(),
    {
        let (a, b) = (self.sets[r]@, self.sets[q]@);
        self.lemma_set(graph, n, root, edges, r);
        self.lemma_set(graph, n, root, edges, q);
        lemma_selection_laminar(self.list, self.selected);
        let (k, l) = (self.selected[r - 1] as int, self.selected[q - 1] as int);
        assert(!shares_boundary(self.list[k], self.list[l]) && is_laminar(a, b));
        assert(overlaps(a, b)) by {
            assert(b.contains(a[a.index_of(v)]));
        }
        law_regions_differ_by_entry(graph, 0usize, self.closed, self.list, k, l);
        if a.len() == b.len() {
            if holds_all(a, b) {
                assert forall|i: int| 0 <= i < a.len() implies a[i] == b[i] by {
                    lemma_whole_part(a, b, i);
                }
            } else {
                assert forall|i: int| 0 <= i < a.len() implies a[i] == b[i] by {
                    lemma_whole_part(b, a, i);
                }
            }
            assert(a =~= b);
        }
    }

    /// The region `x` hangs below a real region that holds it and is no larger than the
    /// real region `above`, which holds it too.
    proof fn lemma_above(
        self,
        graph: &FlowGraph,
        n: int,
        root: int,
        edges: Seq<IEdge>,
        x: int,
        above: int,
    )
        requires
            self.is_made(graph, n, root, edges),
            1 <= x < self.sets.len(),
            1 <= above < self.sets.len(),
            holds_all(self.sets[above]@, self.sets[x]@),
            self.sets[x]@.len() < self.sets[above]@.len(),
            is_real(self.regions[above], n, edges.len() as int),
        ensures
            ({
                let y = real_above(self.regions, n, edges.len() as int, x);
                &&& 1 <= y < x
                &&& self.sets[y]@.len() <= self.sets[above]@.len()
            }),
        decreases x,
    {
        let m = edges.len() as int;
        self.lemma_set(graph, n, root, edges, x);
        self.lemma_set(graph, n, root, edges, above);
        if above > x {
            lemma_selection_order(self.list, self.selected, x - 1, above - 1);
        }
        let p = self.parent[x] as int;
        assert(first_smallest(self.sets, holders(self.sets, self.sets[x]@), 0, x, p));
        assert(holders(self.sets, self.sets[x]@)(above));
        assert(holders(self.sets, self.sets[x]@)(p));
        assert(self.sets[p]@.len() <= self.sets[above]@.len());
        assert(self.regions[x].parent == Some(self.parent[x]));
        if p == 0 {
            self.lemma_real_is_small(graph, n, root, edges, above);
        } else {
            let v = self.sets[x]@[0];
            assert(self.sets[p]@.contains(v));
            assert(self.sets[above]@.contains(v));
            if p != above {
                self.lemma_pair(graph, n, root, edges, p, above, v);
                self.lemma_set(graph, n, root, edges, p);
                if holds_all(self.sets[p]@, self.sets[above]@) {
                    lemma_part_is_shorter(self.sets[p]@, self.sets[above]@);
                }
                if !is_real(self.regions[p], n, m) {
                    self.lemma_above(graph, n, root, edges, p, above);
                }
            }
        }
    }

    /// A real region does not hold the source.
    proof fn lemma_real_is_small(self, graph: &FlowGraph, n: int, root: int, edges: Seq<IEdge>, r: int)
        requires
            self.is_made(graph, n, root, edges),
            1 <= r < self.sets.len(),
            is_real(self.regions[r], n, edges.len() as int),
        ensures
            self.sets[r]@.len() < self.sets[0]@.len(),
    {
        self.lemma_set(graph, n, root, edges, r);
        lemma_part_is_shorter(self.sets[0]@, self.sets[r]@);
        let entry = self.closed.entry;
        if self.sets[r]@.len() == self.sets[0]@.len() {
            lemma_whole_part(self.sets[0]@, self.sets[r]@, entry as int);
            assert(self.sets[0]@[entry as int] == entry);
            let nodes = self.regions[r].contained_nodes@;
            assert(nodes == picked(self.closed.ids@, self.sets[r]@));
            assert(nodes[entry as int] == self.closed.ids@[entry as int]);
            assert(2 <= nodes[entry as int]);
        }
    }

    /// The nodes of a real region, as they were numbered before the graph was normalized.
    proof fn lemma_real_cut(self, graph: &FlowGraph, n: int, root: int, edges: Seq<IEdge>, r: int)
        requires
            self.is_made(graph, n, root, edges),
            1 <= r < self.sets.len(),
            is_real(self.regions[r], n, edges.len() as int),
        ensures
            ({
                let region = self.regions[r];
                let low = lowered(region.contained_nodes@);
                &&& low.len() == self.sets[r]@.len()
                &&& low.len() > 0
                &&& is_increasing(low)
                &&& forall|k: int| 0 <= k < low.len() ==> #[trigger] low[k] < n
                &&& forall|k: int|
                    0 <= k < low.len() ==> #[trigger] low[k] + 2
                        == self.closed.ids@[self.sets[r]@[k] as int]
                &&& (region.entry_edge->0 - 1) < edges.len()
                &&& low.contains(edges[region.entry_edge->0 - 1].to)
                &&& low.len() < n
            }),
    {
        self.lemma_set(graph, n, root, edges, r);
        let region = self.regions[r];
        let c = self.selected[r - 1] as int;
        let nodes = region.contained_nodes@;
        let low = lowered(nodes);
        assert(nodes == picked(self.closed.ids@, self.sets[r]@));
        let entry = region.entry_edge->0;
        assert(region.entry_edge == Some(self.closed.originals@[self.list[c].entry as int]));
        lemma_good_cut(graph, n, root, edges, self.closed, self.list, c, nodes, entry);
        assert forall|k: int| 0 <= k < low.len() implies #[trigger] low[k] + 2
            == self.closed.ids@[self.sets[r]@[k] as int] by {
            assert(2 <= nodes[k]);
        }
        self.lemma_entry_outside(graph, n, root, edges, r);
        let missing = edges[entry - 1].from;
        assert(edges[entry - 1].from < n);
        let all = Seq::new(n as nat, |v: int| v as usize);
        assert(is_range(all, n));
        lemma_range_holds(all, n, low);
        lemma_part_is_shorter(all, low);
        if low.len() == n {
            lemma_whole_part(all, low, missing as int);
            assert(low[missing as int] == missing);
        }
    }

    /// The entry edge of a real region comes from outside.
    proof fn lemma_entry_outside(self, graph: &FlowGraph, n: int, root: int, edges: Seq<IEdge>, r: int)
        requires
            self.is_made(graph, n, root, edges),
            1 <= r < self.sets.len(),
            is_real(self.regions[r], n, edges.len() as int),
        ensures
            !lowered(self.regions[r].contained_nodes@).contains(
                edges[self.regions[r].entry_edge->0 - 1].from,
            ),
    {
        self.lemma_set(graph, n, root, edges, r);
        let region = self.regions[r];
        let closed = self.closed;
        let ids = closed.ids@;
        let c = self.list[self.selected[r - 1] as int];
        let nodes = region.contained_nodes@;
        let low = lowered(nodes);
        let entry = region.entry_edge->0;
        assert(nodes == picked(ids, self.sets[r]@));
        assert(entry == closed.originals@[c.entry as int]);
        let part = closed.edges@.subrange(0, closed.originals@.len() as int);
        assert forall|e: int|
            #![trigger closed.edges@[e]]
            0 <= e < closed.originals@.len() implies closed.edges@[e].to < ids.len() by {
            assert(part[e] == closed.edges@[e]);
        }
        lemma_entry_of_candidate(closed, self.list, self.selected[r - 1] as int);
        let a = c.entry as int;
        assert(part[a] == closed.edges@[a]);
        let from = closed.edges@[a].from;
        assert(ids[from as int] == graph.spec_from(entry));
        let all = normalized_edges(n, root, edges);
        assert(all[entry as int] == moved_edges(edges)[entry - 1]);
        assert(graph.edge_map().contains_key(entry));
        assert(edges[entry - 1].from < n);
        assert(graph.spec_from(entry) == (edges[entry - 1].from + 2) as usize);
        if low.contains(edges[entry - 1].from) {
            let k = low.index_of(edges[entry - 1].from);
            assert(2 <= nodes[k]);
            let x = self.sets[r]@[k] as int;
            assert(nodes[k] == ids[x]);
            assert(ids[x] == ids[from as int]);
            if x < from {
                lemma_ids_grow(graph, 0usize, closed, x, from as int);
            } else if from < x {
                lemma_ids_grow(graph, 0usize, closed, from as int, x);
            }
            assert(c.nodes@.contains(from));
        }
    }

    /// The region above is real and holds what hangs below it.
    proof fn lemma_above_holds(self, graph: &FlowGraph, n: int, root: int, edges: Seq<IEdge>, x: int)
        requires
            self.is_made(graph, n, root, edges),
            1 <= x < self.sets.len(),
        ensures
            ({
                let y = real_above(self.regions, n, edges.len() as int, x);
                y == 0 || (1 <= y < x && is_real(self.regions[y], n, edges.len() as int)
                    && holds_all(self.sets[y]@, self.sets[x]@))
            }),
        decreases x,
    {
        let m = edges.len() as int;
        let p = self.parent[x] as int;
        assert(self.regions[x].parent == Some(self.parent[x]));
        assert(first_smallest(self.sets, holders(self.sets, self.sets[x]@), 0, x, p));
        assert(holders(self.sets, self.sets[x]@)(p));
        if p > 0 && !is_real(self.regions[p], n, m) {
            self.lemma_above_holds(graph, n, root, edges, p);
            let y = real_above(self.regions, n, m, p);
            if y > 0 {
                assert forall|k: int| 0 <= k < self.sets[x]@.len() implies self.sets[y]@.contains(
                    #[trigger] self.sets[x]@[k],
                ) by {
                    assert(self.sets[p]@.contains(self.sets[x]@[k]));
                    let l = self.sets[p]@.index_of(self.sets[x]@[k]);
                    assert(self.sets[y]@.contains(self.sets[p]@[l]));
                }
            }
        }
    }

    /// Real regions hold one another before the graph was normalized as they do after.
    proof fn lemma_lowered_holds(
        self,
        graph: &FlowGraph,
        n: int,
        root: int,
        edges: Seq<IEdge>,
        x: int,
        y: int,
    )
        requires
            self.is_made(graph, n, root, edges),
            1 <= x < self.sets.len(),
            1 <= y < self.sets.len(),
            is_real(self.regions[x], n, edges.len() as int),
            is_real(self.regions[y], n, edges.len() as int),
        ensures
            holds_all(
                lowered(self.regions[y].contained_nodes@),
                lowered(self.regions[x].contained_nodes@),
            ) == holds_all(self.sets[y]@, self.sets[x]@),
    {
        let (a, b) = (
            lowered(self.regions[y].contained_nodes@),
            lowered(self.regions[x].contained_nodes@),
        );
        let (d, e) = (self.sets[y]@, self.sets[x]@);
        self.lemma_real_cut(graph, n, root, edges, x);
        self.lemma_real_cut(graph, n, root, edges, y);
        if holds_all(a, b) {
            assert forall|k: int| 0 <= k < e.len() implies d.contains(#[trigger] e[k]) by {
                assert(a.contains(b[k]));
                let l = a.index_of(b[k]);
                self.lemma_same_place(graph, n, root, edges, x, y, k, l);
                assert(d[l] == e[k]);
            }
        }
        if holds_all(d, e) {
            assert forall|k: int| 0 <= k < b.len() implies a.contains(#[trigger] b[k]) by {
                assert(d.contains(e[k]));
                let l = d.index_of(e[k]);
                assert(a[l] + 2 == b[k] + 2);
                assert(a[l] == b[k]);
            }
        }
    }

    /// A node that two real regions share is the same node of the flow graph.
    proof fn lemma_same_place(
        self,
        graph: &FlowGraph,
        n: int,
        root: int,
        edges: Seq<IEdge>,
        x: int,
        y: int,
        k: int,
        l: int,
    )
        requires
            self.is_made(graph, n, root, edges),
            1 <= x < self.sets.len(),
            1 <= y < self.sets.len(),
            is_real(self.regions[x], n, edges.len() as int),
            is_real(self.regions[y], n, edges.len() as int),
            0 <= k < self.sets[x]@.len(),
            0 <= l < self.sets[y]@.len(),
            lowered(self.regions[x].contained_nodes@)[k] == lowered(
                self.regions[y].contained_nodes@,
            )[l],
        ensures
            self.sets[x]@[k] == self.sets[y]@[l],
    {
        self.lemma_set(graph, n, root, edges, x);
        self.lemma_set(graph, n, root, edges, y);
        self.lemma_real_cut(graph, n, root, edges, x);
        self.lemma_real_cut(graph, n, root, edges, y);
        let (i, j) = (self.sets[x]@[k] as int, self.sets[y]@[l] as int);
        assert(lowered(self.regions[x].contained_nodes@)[k] + 2 == self.closed.ids@[i]);
        assert(lowered(self.regions[y].contained_nodes@)[l] + 2 == self.closed.ids@[j]);
        if i < j {
            lemma_ids_grow(graph, 0usize, self.closed, i, j);
        } else if j < i {
            lemma_ids_grow(graph, 0usize, self.closed, j, i);
        }
    }
}

proof fn lemma_kept_grows(regions: Seq<RawRegion>, n: int, m: int, k: int, i: int, j: int)
    requires
        1 <= k,
        0 <= i < j < real_regions(regions, n, m, k).len(),
    ensures
        real_regions(regions, n, m, k)[i] < real_regions(regions, n, m, k)[j],
    decreases k,
{
    if k > 1 {
        lemma_real_regions(regions, n, m, k - 1);
        let before = real_regions(regions, n, m, k - 1);
        if j < before.len() {
            lemma_kept_grows(regions, n, m, k - 1, i, j);
        }
    }
}

/// A region of a stripped tree is a real region of the tree that was stripped.
proof fn lemma_kept_region(
    canon: Canon,
    graph: &FlowGraph,
    n: int,
    root: int,
    edges: Seq<IEdge>,
    tree: RegionTree,
    i: int,
) -> (x: int)
    requires
        canon.is_made(graph, n, root, edges),
        is_stripped(canon.regions, n, edges.len() as int, tree),
        1 <= i < tree.sets@.len(),
    ensures
        ({
            let m = edges.len() as int;
            let kept = real_regions(canon.regions, n, m, canon.regions.len() as int);
            &&& x == kept[i]
            &&& kept[0] == 0
            &&& 1 <= x < canon.sets.len()
            &&& is_real(canon.regions[x], n, m)
            &&& tree.sets@[i]@ == lowered(canon.regions[x].contained_nodes@)
            &&& tree.sets@[i]@.len() == canon.sets[x]@.len()
            &&& is_increasing(tree.sets@[i]@)
            &&& 0 < tree.sets@[i]@.len() < n
            &&& forall|k: int| 0 <= k < tree.sets@[i]@.len() ==> #[trigger] tree.sets@[i]@[k] < n
            &&& leads_into(edges, tree.bounds@[i], tree.sets@[i]@)
            &&& tree.parent@[i] < i
            &&& kept[tree.parent@[i] as int] == real_above(canon.regions, n, m, x)
        }),
{
    let m = edges.len() as int;
    let kept = real_regions(canon.regions, n, m, canon.regions.len() as int);
    lemma_real_regions(canon.regions, n, m, canon.regions.len() as int);
    let x = kept[i];
    canon.lemma_real_cut(graph, n, root, edges, x);
    assert(tree.sets@[i]@ == lowered(canon.regions[x].contained_nodes@));
    x
}

/// Two regions of a stripped tree that share a node are nested, and one is larger.
proof fn lemma_stripped_pair(
    canon: Canon,
    graph: &FlowGraph,
    n: int,
    root: int,
    edges: Seq<IEdge>,
    tree: RegionTree,
    r: int,
    q: int,
)
    requires
        canon.is_made(graph, n, root, edges),
        is_stripped(canon.regions, n, edges.len() as int, tree),
        0 <= r < tree.sets@.len(),
        0 <= q < tree.sets@.len(),
        r != q,
        overlaps(tree.sets@[r]@, tree.sets@[q]@),
    ensures
        is_laminar(tree.sets@[r]@, tree.sets@[q]@),
        tree.sets@[r]@.len() != tree.sets@[q]@.len(),
{
    let (a, b) = (tree.sets@[r]@, tree.sets@[q]@);
    if r == 0 {
        let y = lemma_kept_region(canon, graph, n, root, edges, tree, q);
        lemma_range_holds(a, n, b);
    } else if q == 0 {
        let x = lemma_kept_region(canon, graph, n, root, edges, tree, r);
        lemma_range_holds(b, n, a);
    } else {
        let x = lemma_kept_region(canon, graph, n, root, edges, tree, r);
        let y = lemma_kept_region(canon, graph, n, root, edges, tree, q);
        let m = edges.len() as int;
        if r < q {
            lemma_kept_grows(canon.regions, n, m, canon.regions.len() as int, r, q);
        } else {
            lemma_kept_grows(canon.regions, n, m, canon.regions.len() as int, q, r);
        }
        let k = choose|k: int| 0 <= k < a.len() && b.contains(#[trigger] a[k]);
        let l = b.index_of(a[k]);
        canon.lemma_same_place(graph, n, root, edges, x, y, k, l);
        let v = canon.sets[x]@[k];
        assert(canon.sets[y]@[l] == v);
        canon.lemma_pair(graph, n, root, edges, x, y, v);
        canon.lemma_lowered_holds(graph, n, root, edges, x, y);
        canon.lemma_lowered_holds(graph, n, root, edges, y, x);
    }
}

/// A region of a stripped tree hangs below one that holds it.
proof fn lemma_stripped_parent(
    canon: Canon,
    graph: &FlowGraph,
    n: int,
    root: int,
    edges: Seq<IEdge>,
    tree: RegionTree,
    j: int,
)
    requires
        canon.is_made(graph, n, root, edges),
        is_stripped(canon.regions, n, edges.len() as int, tree),
        1 <= j < tree.sets@.len(),
    ensures
        tree.parent@[j] < j,
        holds_all(tree.sets@[tree.parent@[j] as int]@, tree.sets@[j]@),
{
    let x = lemma_kept_region(canon, graph, n, root, edges, tree, j);
    let p = tree.parent@[j] as int;
    if p == 0 {
        lemma_range_holds(tree.sets@[0]@, n, tree.sets@[j]@);
    } else {
        let y = lemma_kept_region(canon, graph, n, root, edges, tree, p);
        canon.lemma_above_holds(graph, n, root, edges, x);
        canon.lemma_lowered_holds(graph, n, root, edges, x, y);
    }
}

/// No larger region of a stripped tree that holds another is smaller than its parent.
proof fn lemma_stripped_nearest(
    canon: Canon,
    graph: &FlowGraph,
    n: int,
    root: int,
    edges: Seq<IEdge>,
    tree: RegionTree,
    j: int,
    r: int,
)
    requires
        canon.is_made(graph, n, root, edges),
        is_stripped(canon.regions, n, edges.len() as int, tree),
        1 <= j < tree.sets@.len(),
        0 <= r < tree.sets@.len(),
        holds_all(tree.sets@[r]@, tree.sets@[j]@),
        tree.sets@[j]@.len() < tree.sets@[r]@.len(),
    ensures
        tree.sets@[tree.parent@[j] as int]@.len() <= tree.sets@[r]@.len(),
{
    let x = lemma_kept_region(canon, graph, n, root, edges, tree, j);
    let p = tree.parent@[j] as int;
    if r == 0 {
        if p > 0 {
            let y = lemma_kept_region(canon, graph, n, root, edges, tree, p);
        }
    } else {
        let above = lemma_kept_region(canon, graph, n, root, edges, tree, r);
        canon.lemma_lowered_holds(graph, n, root, edges, x, above);
        canon.lemma_above(graph, n, root, edges, x, above);
        let y = lemma_kept_region(canon, graph, n, root, edges, tree, p);
    }
}

/// Canonical regions without synthetic parts are a family.
proof fn lemma_stripped_family(
    canon: Canon,
    graph: &FlowGraph,
    n: int,
    root: int,
    edges: Seq<IEdge>,
    tree: RegionTree,
)
    requires
        canon.is_made(graph, n, root, edges),
        is_stripped(canon.regions, n, edges.len() as int, tree),
    ensures
        is_family(tree, n),
        has_entries(tree, edges),
{
    let sets = tree.sets@;
    lemma_real_regions(canon.regions, n, edges.len() as int, canon.regions.len() as int);
    assert forall|r: int|
        #![trigger sets[r]]
        0 <= r < sets.len() implies is_increasing(sets[r]@) && holds_all(sets[0]@, sets[r]@) by {
        if r > 0 {
            let x = lemma_kept_region(canon, graph, n, root, edges, tree, r);
        }
        lemma_range_holds(sets[0]@, n, sets[r]@);
    }
    assert forall|r: int, q: int|
        0 <= r < sets.len() && 0 <= q < sets.len() && r != q && overlaps(
            (#[trigger] sets[r])@,
            (#[trigger] sets[q])@,
        ) implies is_laminar(sets[r]@, sets[q]@) && sets[r]@.len() != sets[q]@.len() by {
        lemma_stripped_pair(canon, graph, n, root, edges, tree, r, q);
    }
    assert forall|j: int| #![trigger tree.parent@[j]] 1 <= j < sets.len() implies tree.parent@[j] < j
        && holds_all(sets[tree.parent@[j] as int]@, sets[j]@) by {
        lemma_stripped_parent(canon, graph, n, root, edges, tree, j);
    }
    assert forall|j: int, r: int|
        #![trigger tree.parent@[j], sets[r]]
        1 <= j < sets.len() && 0 <= r < sets.len() && holds_all(sets[r]@, sets[j]@)
            && sets[j]@.len() < sets[r]@.len() && sets[j]@.len()
            > 0 implies sets[tree.parent@[j] as int]@.len() <= sets[r]@.len() by {
        lemma_stripped_nearest(canon, graph, n, root, edges, tree, j, r);
    }
    assert forall|r: int|
        #![trigger tree.sets@[r]]
        1 <= r < tree.sets@.len() implies leads_into(edges, tree.bounds@[r], tree.sets@[r]@) by {
        let x = lemma_kept_region(canon, graph, n, root, edges, tree, r);
    }
}

proof fn lemma_cut_count(found: Seq<RawCandidate>, n: int, m: int, k: int)
    requires
        0 <= k,
    ensures
        real_cuts(found, n, m, k).len() <= k,
    decreases k,
{
    if k > 0 {
        lemma_cut_count(found, n, m, k - 1);
    }
}

/// Child regions of one region have no node in common.
proof fn lemma_siblings_apart(tree: RegionTree, n: int, r: int, c: int, d: int, v: usize)
    requires
        is_family(tree, n),
        tree.sets@.len() <= usize::MAX,
        0 <= r < tree.sets@.len(),
        tree.children@[r]@.contains(c as usize),
        tree.children@[r]@.contains(d as usize),
        0 <= c <= usize::MAX,
        0 <= d <= usize::MAX,
        c != d,
        tree.sets@[c]@.contains(v),
        tree.sets@[c]@.len() <= tree.sets@[d]@.len(),
    ensures
        !tree.sets@[d]@.contains(v),
{
    let sets = tree.sets@;
    assert(tree.parent@[c] == r && tree.parent@[d] == r);
    let (a, b) = (sets[c]@, sets[d]@);
    if b.contains(v) {
        assert(overlaps(a, b)) by {
            assert(b.contains(a[a.index_of(v)]));
        }
        if holds_all(a, b) {
            lemma_part_is_shorter(a, b);
        }
        assert(holds_all(b, a));
        assert(sets[tree.parent@[c] as int]@.len() <= b.len());
        assert(holds_all(sets[r]@, b));
        assert(overlaps(b, sets[r]@)) by {
            assert(sets[r]@.contains(b[b.index_of(v)]));
        }
        lemma_part_is_shorter(sets[r]@, b);
    }
}

/// A region has no more child regions than there are nodes, and owns no more nodes.
proof fn lemma_few_children(tree: RegionTree, lo: int, n: int, edges: Seq<IEdge>, r: int)
    requires
        is_family(tree, n),
        has_entries(tree, edges),
        tree.sets@.len() <= usize::MAX,
        0 <= lo <= 1,
        is_ownership(tree.sets@, lo, n, tree.owned@),
        0 <= r < tree.sets@.len(),
    ensures
        tree.children@[r]@.len() <= n,
        is_below(tree.children@[r]@, tree.sets@.len() as int),
        tree.owned@[r]@.len() <= n,
        tree.owned@[r]@.no_duplicates(),
        tree.sets@[r]@.len() <= n,
{
    let children = tree.children@[r]@;
    let sets = tree.sets@;
    assert forall|k: int| 0 <= k < children.len() implies #[trigger] children[k] < sets.len() by {
        assert(children.contains(children[k]));
    }
    let firsts = Seq::new(children.len(), |k: int| sets[children[k] as int]@[0] as int);
    assert forall|k: int| 0 <= k < children.len() implies 0 <= #[trigger] firsts[k] < n
        && sets[children[k] as int]@.len() > 0 by {
        assert(children.contains(children[k]));
        let c = children[k] as int;
        assert(leads_into(edges, tree.bounds@[c], sets[c]@));
        assert(sets[0]@.contains(sets[c]@[0]));
    }
    assert forall|i: int, j: int| 0 <= i < firsts.len() && 0 <= j < firsts.len() && i != j implies firsts[i]
        != firsts[j] by {
        if firsts[i] == firsts[j] {
            assert(children.contains(children[i]) && children.contains(children[j]));
            let (c, d) = (children[i] as int, children[j] as int);
            if i < j {
                assert(children[i] < children[j]);
            } else {
                assert(children[j] < children[i]);
            }
            let v = sets[c]@[0];
            assert(0 <= firsts[i] && 0 <= firsts[j]);
            assert(sets[d]@[0] == v);
            assert(sets[c]@.contains(v) && sets[d]@.contains(v));
            if sets[c]@.len() <= sets[d]@.len() {
                lemma_siblings_apart(tree, n, r, c, d, v);
            } else {
                lemma_siblings_apart(tree, n, r, d, c, v);
            }
        }
    }
    crate::counting::lemma_distinct_in_range(firsts, 0, n);
    let owned = tree.owned@[r]@;
    assert forall|k: int| 0 <= k < owned.len() implies #[trigger] owned[k] < n by {
        assert(owned.contains(owned[k]));
    }
    lemma_range_holds(sets[0]@, n, owned);
    lemma_part_is_shorter(sets[0]@, owned);
    lemma_part_is_shorter(sets[0]@, sets[r]@);
}

/// Canonical regions are covered and entered.
proof fn lemma_sese_covered(n: int, root: int, edges: Seq<IEdge>, tree: RegionTree, r: int)
    requires
        0 <= root < n,
        edges.len() + n + 2 < usize::MAX,
        n < usize::MAX / 32,
        ends_below(edges, n),
        are_sese_regions(n, root, edges, tree),
        0 <= r < tree.sets@.len() <= usize::MAX,
    ensures
        has_children(tree, r),
        is_covered(tree, r),
        has_entries(tree, edges),
        tree.bounds@[0] is None,
{
    let (graph, raw) = choose|graph: &FlowGraph, raw: SeseTree<usize, usize>|
        {
            &&& #[trigger] is_flow_graph(graph, n + 2, normalized_edges(n, root, edges))
            &&& #[trigger] is_sese_tree(graph, 0, raw)
            &&& is_stripped(raw.regions@, n, edges.len() as int, tree)
        };
    lemma_flow_graph_navigable(graph, n + 2, normalized_edges(n, root, edges));
    let (closed, list, selected, sets, parent, children, owned) = choose|
        closed: ClosedFlow<usize, usize>,
        list: Seq<Candidate>,
        selected: Seq<usize>,
        sets: Seq<Vec<usize>>,
        parent: Seq<usize>,
        children: Seq<Vec<usize>>,
        owned: Seq<Vec<usize>>,
    |
        {
            &&& #[trigger] closed.represents(graph, 0usize)
            &&& candidates_of(closed, list)
            &&& #[trigger] is_tree_of(
                closed,
                list,
                selected,
                sets,
                parent,
                children,
                owned,
                raw.regions@,
            )
        };
    let canon = Canon {
        closed,
        list,
        selected,
        sets,
        parent,
        children,
        owned,
        regions: raw.regions@,
    };
    lemma_stripped_family(canon, graph, n, root, edges, tree);
    lemma_family_covers(tree, 1, n, r);
    lemma_few_children(tree, 1, n, edges, r);
    assert(has_children(tree, r));
}

/// Regions in hammocks are covered and entered.
proof fn lemma_mixed_covered(
    n: int,
    root: int,
    edges: Seq<IEdge>,
    hammocks: Seq<DenseHammock>,
    cuts: Seq<Cut>,
    order: Seq<usize>,
    tree: RegionTree,
    r: int,
)
    requires
        0 <= root < n,
        edges.len() + n + 2 < usize::MAX,
        n < usize::MAX / 32,
        ends_below(edges, n),
        are_hammocks(n as usize, root as usize, edges, hammocks),
        are_sese_cuts(n, root, edges, cuts),
        is_mixed_tree(n, hammocks, cuts, order, tree),
        0 <= r < tree.sets@.len() <= usize::MAX,
    ensures
        has_children(tree, r),
        is_covered(tree, r),
        has_entries(tree, edges),
        tree.bounds@[0] is None,
{
    let (graph, found) = choose|graph: &FlowGraph, found: Seq<RawCandidate>|
        {
            &&& #[trigger] is_flow_graph(graph, n + 2, normalized_edges(n, root, edges))
            &&& #[trigger] is_candidate_list(graph, 0, found)
            &&& cuts == real_cuts(found, n, edges.len() as int, found.len() as int)
        };
    let (closed, list) = choose|closed: ClosedFlow<usize, usize>, list: Seq<Candidate>|
        {
            &&& #[trigger] closed.represents(graph, 0usize)
            &&& #[trigger] candidates_of(closed, list)
            &&& found.len() == list.len()
            &&& forall|i: int|
                0 <= i < found.len() ==> is_candidate(closed, list[i], #[trigger] found[i])
        };
    lemma_good_cuts(graph, n, root, edges, closed, list, found, found.len() as int);
    lemma_cut_count(found, n, edges.len() as int, found.len() as int);
    assert(is_mixed(n, root, edges, hammocks, cuts, order, tree));
    lemma_mixed_sorted_out(n, root, edges, hammocks, cuts, order, tree);
    lemma_mixed_entries(n, root, edges, hammocks, cuts, order, tree);
    let h = hammocks.len() as int;
    assert forall|i: int| 1 <= i <= h implies #[trigger] tree.parent@[i] == 0 by {
        assert(tree.sets@[i]@ == hammocks[i - 1].nodes@);
    }
    lemma_mixed_family(tree, n, h);
    lemma_family_covers(tree, 0, n, r);
    lemma_few_children(tree, 0, n, edges, r);
    assert(has_children(tree, r));
}

/// Every node of a layout region belongs to the region itself or to one of its child
/// regions, and the entry edge of a region leads into it: every region has a quotient.
pub proof fn law_layout_regions_have_quotients(n: int, root: int, edges: Seq<IEdge>, tree: RegionTree, r: int)
    requires
        0 <= root < n,
        edges.len() + n + 2 < usize::MAX,
        n < usize::MAX / 32,
        ends_below(edges, n),
        are_layout_regions(n, root, edges, tree),
        0 <= r < tree.sets@.len(),
    ensures
        has_children(tree, r),
        is_covered(tree, r),
        tree.bounds@[r] matches Some(b) ==> b.0 < edges.len() && tree.sets@[r]@.contains(
            edges[b.0 as int].to,
        ),
{
    let total: usize = tree.sets.len();
    let hammocks = choose|hammocks: Seq<DenseHammock>|
        #[trigger] are_hammocks(n as usize, root as usize, edges, hammocks) && has_hammocks(
            n,
            root,
            edges,
            hammocks,
            tree,
        );
    if hammocks.len() == 0 {
        lemma_sese_covered(n, root, edges, tree, r);
    } else {
        let (cuts, order) = choose|cuts: Seq<Cut>, order: Seq<usize>|
            #[trigger] are_sese_cuts(n, root, edges, cuts) && #[trigger] is_mixed_tree(
                n,
                hammocks,
                cuts,
                order,
                tree,
            );
        lemma_mixed_covered(n, root, edges, hammocks, cuts, order, tree, r);
    }
    if r > 0 {
        assert(leads_into(edges, tree.bounds@[r], tree.sets@[r]@));
    }
}

// Trees of graphs.

/// In the order of their indices, nodes can be listed in one way only.
proof fn lemma_sorted_list<Id: Identifier>(a: Seq<Id>, b: Seq<Id>, i: int)
    requires
        sorts(a, a),
        sorts(a, b),
        0 <= i < a.len(),
    ensures
        a[i] == b[i],
    decreases i, 0int,
{
    assert(b.contains(b[i]) && a.contains(a[i]));
    assert(a.contains(b[i]) && b.contains(a[i]));
    let (k, l) = (a.index_of(b[i]), b.index_of(a[i]));
    if i > 0 {
        lemma_sorted_prefix(a, b, i - 1);
    }
    // Neither can come earlier, so each is not above the other.
    assert(a[k] == b[i] && b[l] == a[i]);
    if k < i {
        assert(a[k] == b[k]);
        assert(b[k].spec_index() < b[i].spec_index());
    }
    if l < i {
        assert(a[l] == b[l]);
        assert(a[l].spec_index() < a[i].spec_index());
    }
    if k > i {
        assert(a[i].spec_index() < a[k].spec_index());
    }
    if l > i {
        assert(b[i].spec_index() < b[l].spec_index());
    }
}

proof fn lemma_sorted_prefix<Id: Identifier>(a: Seq<Id>, b: Seq<Id>, i: int)
    requires
        sorts(a, a),
        sorts(a, b),
        0 <= i < a.len(),
    ensures
        forall|k: int| 0 <= k <= i ==> #[trigger] a[k] == b[k],
    decreases i, 1int,
{
    if i > 0 {
        lemma_sorted_prefix(a, b, i - 1);
    }
    lemma_sorted_list(a, b, i);
}

/// Hammocks with the same nodes and edges nest the same candidates.
proof fn lemma_same_choice(cuts: Seq<Cut>, a: Seq<DenseHammock>, b: Seq<DenseHammock>, k: int)
    requires
        are_alike(a, b),
    ensures
        chosen_cuts(cuts, a, k) == chosen_cuts(cuts, b, k),
    decreases k,
{
    if k > 0 {
        lemma_same_choice(cuts, a, b, k - 1);
        let cut = cuts[k - 1];
        if is_nested(cut, a) {
            let h = choose|h: int|
                #![trigger a[h]]
                0 <= h < a.len() && cut.nodes.len() < a[h].nodes@.len() && holds_all(
                    a[h].nodes@,
                    cut.nodes,
                );
            assert(b[h].nodes@ == a[h].nodes@);
        }
        if is_nested(cut, b) {
            let h = choose|h: int|
                #![trigger b[h]]
                0 <= h < b.len() && cut.nodes.len() < b[h].nodes@.len() && holds_all(
                    b[h].nodes@,
                    cut.nodes,
                );
            assert(a[h].nodes@ == b[h].nodes@);
        }
    }
}

/// The hammocks have the same nodes and boundary edges.
spec fn are_alike(a: Seq<DenseHammock>, b: Seq<DenseHammock>) -> bool {
    &&& a.len() == b.len()
    &&& forall|i: int|
        #![trigger a[i]]
        #![trigger b[i]]
        0 <= i < a.len() ==> {
            &&& a[i].nodes@ == b[i].nodes@
            &&& a[i].entry_edge == b[i].entry_edge
            &&& a[i].exit_edge == b[i].exit_edge
        }
}

proof fn lemma_same_tree(
    n: int,
    root: int,
    edges: Seq<IEdge>,
    a: Seq<DenseHammock>,
    b: Seq<DenseHammock>,
    tree: RegionTree,
)
    requires
        are_alike(a, b),
        has_hammocks(n, root, edges, a, tree),
    ensures
        has_hammocks(n, root, edges, b, tree),
{
    if a.len() > 0 {
        let (cuts, order) = choose|cuts: Seq<Cut>, order: Seq<usize>|
            #[trigger] are_sese_cuts(n, root, edges, cuts) && #[trigger] is_mixed_tree(
                n,
                a,
                cuts,
                order,
                tree,
            );
        lemma_same_choice(cuts, a, b, cuts.len() as int);
        assert(is_mixed_tree(n, b, cuts, order, tree));
    }
}

/// Positions in a list without repetitions are told apart by what is at them.
proof fn lemma_same_places<Id>(ids: Seq<Id>, a: Seq<usize>, b: Seq<usize>)
    requires
        ids.no_duplicates(),
        is_below(a, ids.len() as int),
        is_below(b, ids.len() as int),
        picked(ids, a) == picked(ids, b),
    ensures
        a == b,
{
    assert(picked(ids, a).len() == a.len() && picked(ids, b).len() == b.len());
    assert forall|i: int| 0 <= i < a.len() implies a[i] == b[i] by {
        assert(picked(ids, a)[i] == ids[a[i] as int]);
        assert(picked(ids, b)[i] == ids[b[i] as int]);
    }
    assert(a =~= b);
}

/// The tree of a component that is listed in the order of the indices has the layout
/// regions of its part of the graph.
pub proof fn law_ascending_components_have_layout_regions<G: Graph>(
    graph: &G,
    component: Seq<G::NodeId>,
    root: G::NodeId,
    tree: SeseTree<G::NodeId, G::EdgeId>,
)
    requires
        sorts(component, component),
        component.len() <= usize::MAX,
        is_layout_tree(graph, component, root, tree),
    ensures
        exists|part: Part<G::NodeId, G::EdgeId>, dense: RegionTree|
            {
                &&& #[trigger] part.represents(graph, component, root)
                &&& #[trigger] are_layout_regions(
                    part.ids@.len() as int,
                    part.root as int,
                    part.edges@,
                    dense,
                )
                &&& names_tree(part.ids@, part.originals@, dense, tree)
            },
{
    let (part, sorted, found, moved, dense) = choose|
        part: Part<G::NodeId, G::EdgeId>,
        sorted: Part<G::NodeId, G::EdgeId>,
        found: Seq<DenseHammock>,
        moved: Seq<DenseHammock>,
        dense: RegionTree,
    |
        {
            &&& #[trigger] part.lists(graph, component, root)
            &&& #[trigger] sorted.represents(graph, component, root)
            &&& are_hammocks(sorted.ids@.len() as usize, sorted.root, sorted.edges@, found)
            &&& #[trigger] are_moved(sorted.ids@, part.ids@, found, moved)
            &&& has_hammocks(
                part.ids@.len() as int,
                part.root as int,
                part.edges@,
                moved,
                dense,
            )
            &&& #[trigger] names_tree(part.ids@, part.originals@, dense, tree)
        };
    let ids = part.ids@;
    assert forall|i: int| 0 <= i < ids.len() implies ids[i] == sorted.ids@[i] by {
        lemma_sorted_list(component, sorted.ids@, i);
    }
    assert(ids =~= sorted.ids@);
    assert forall|i: int, j: int| 0 <= i < ids.len() && 0 <= j < ids.len() && i != j implies ids[i]
        != ids[j] by {
        if i < j {
            assert(ids[i].spec_index() < ids[j].spec_index());
        } else {
            assert(ids[j].spec_index() < ids[i].spec_index());
        }
    }
    assert forall|i: int| 0 <= i < part.edges@.len() implies part.edges@[i] == sorted.edges@[i] by {
        let (a, b) = (part.edges@[i], sorted.edges@[i]);
        assert(ids[a.from as int] == ids[b.from as int]);
        assert(ids[a.to as int] == ids[b.to as int]);
    }
    assert(part.edges@ =~= sorted.edges@);
    assert(part.root == sorted.root);
    assert forall|i: int|
        #![trigger moved[i]]
        #![trigger found[i]]
        0 <= i < moved.len() implies {
        &&& moved[i].nodes@ == found[i].nodes@
        &&& moved[i].entry_edge == found[i].entry_edge
        &&& moved[i].exit_edge == found[i].exit_edge
    } by {
        lemma_nodes_below(ids.len() as usize, sorted.root, sorted.edges@, found, i);
        lemma_same_places(ids, moved[i].nodes@, found[i].nodes@);
    }
    let n = ids.len() as int;
    lemma_same_tree(n, part.root as int, part.edges@, moved, found, dense);
    assert(are_hammocks(n as usize, (part.root as int) as usize, part.edges@, found));
    assert(are_layout_regions(n, part.root as int, part.edges@, dense));
    assert(part.represents(graph, component, root));
}

} // verus!
