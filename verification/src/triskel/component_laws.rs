//! What holds of the working layout of a component, and of the regions chosen for it.
use crate::graph::analysis::sese::IEdge;
use crate::triskel::component::{bare_layout, component_layout, loops_of};
use crate::triskel::hammock::{
    are_apart, chosen_hammocks, is_apart_from, DenseHammock, HammockCandidate,
};
use crate::triskel::layout_graph::LayoutState;
use crate::triskel::region_tree::{
    chosen_cuts, is_natural_exit, is_nested, is_real, joins, natural_exits, real_above,
    real_regions, Cut, RawRegion,
};
use crate::triskel::tree_index::TreeIndex;
use vstd::prelude::*;

verus! {

/// The edge `e` of the layout stands for the original edge that it names.
pub open spec fn stands_for(
    state: LayoutState,
    edges: Seq<IEdge>,
    ports: Seq<(Option<usize>, Option<usize>)>,
    k: int,
    e: usize,
) -> bool {
    let entry = state.edges[e];
    let i = entry.data.orig as int;
    &&& 0 <= i < k
    &&& entry.from == edges[i].from
    &&& entry.to == edges[i].to
    &&& entry.from != entry.to
    &&& !entry.data.reversed
    &&& entry.data.minlen == 1 && entry.data.weight == 1
    &&& entry.data.port_start == ports[i].0
    &&& entry.data.port_end == ports[i].1
}

/// Some edge of the layout names `i`.
pub open spec fn is_named(state: LayoutState, i: int) -> bool {
    exists|e: usize| #[trigger] state.edges.contains_key(e) && state.edges[e].data.orig == i
}

/// The nodes of loops.
pub open spec fn loop_nodes(loops: Seq<(usize, usize)>) -> Seq<usize> {
    loops.map_values(|l: (usize, usize)| l.1)
}

/// The layout of `n` nodes.
proof fn lemma_bare(n: nat)
    requires
        n <= usize::MAX,
    ensures
        bare_layout(n).next_node == n,
        bare_layout(n).next_edge == 0,
        bare_layout(n).edges.dom() == Set::<usize>::empty(),
        forall|v: usize| #[trigger] bare_layout(n).nodes.contains_key(v) <==> v < n,
        forall|v: usize| #[trigger]
            bare_layout(n).nodes.contains_key(v) ==> bare_layout(n).nodes[v].data.self_loops == 0
                && !bare_layout(n).nodes[v].data.is_dummy,
    decreases n,
{
    if n > 0 {
        lemma_bare((n - 1) as nat);
    } else {
        assert(bare_layout(0).edges.dom() =~= Set::<usize>::empty());
    }
}

/// The working layout of a component has its nodes, and one edge for each of its edges that
/// is no loop, with the same ends and ports; loops are counted at their nodes.
#[verifier::rlimit(40)]
pub proof fn law_component_keeps_its_edges(
    n: nat,
    edges: Seq<IEdge>,
    ports: Seq<(Option<usize>, Option<usize>)>,
    k: int,
)
    requires
        n <= usize::MAX,
        0 <= k <= edges.len(),
        edges.len() <= u32::MAX,
        edges.len() < usize::MAX,
        forall|i: int|
            #![trigger edges[i]]
            0 <= i < edges.len() ==> edges[i].from < n && edges[i].to < n,
    ensures
        ({
            let state = component_layout(n, edges, ports, k);
            &&& state.next_node == n
            &&& state.next_edge <= k
            &&& forall|v: usize| #[trigger] state.nodes.contains_key(v) <==> v < n
            &&& forall|v: usize| #[trigger]
                state.nodes.contains_key(v) ==> !state.nodes[v].data.is_dummy
                    && state.nodes[v].data.self_loops == loop_nodes(
                    loops_of(edges, k),
                ).to_multiset().count(v)
            &&& forall|e: usize| #[trigger]
                state.edges.contains_key(e) ==> e < state.next_edge && stands_for(
                    state,
                    edges,
                    ports,
                    k,
                    e,
                )
            &&& forall|d: usize, e: usize|
                #![trigger state.edges.contains_key(d), state.edges.contains_key(e)]
                state.edges.contains_key(d) && state.edges.contains_key(e) && d < e
                    ==> state.edges[d].data.orig < state.edges[e].data.orig
            &&& forall|i: int|
                0 <= i < k && (#[trigger] edges[i]).from != edges[i].to ==> is_named(state, i)
        }),
    decreases k,
{
    broadcast use vstd::seq_lib::group_to_multiset_ensures;

    lemma_bare(n);
    let state = component_layout(n, edges, ports, k);
    if k > 0 {
        law_component_keeps_its_edges(n, edges, ports, k - 1);
        let before = component_layout(n, edges, ports, k - 1);
        let edge = edges[k - 1];
        let loops = loops_of(edges, k - 1);
        lemma_loops_len(edges, k);
        if edge.from == edge.to {
            assert(loop_nodes(loops_of(edges, k)) =~= loop_nodes(loops).push(edge.from));
            lemma_count_len(loop_nodes(loops), edge.from);
            assert forall|v: usize| #[trigger] state.nodes.contains_key(
                v,
            ) implies !state.nodes[v].data.is_dummy && state.nodes[v].data.self_loops == loop_nodes(
                loops_of(edges, k),
            ).to_multiset().count(v) by {
                assert(before.nodes.contains_key(v));
            }
            assert(state.edges == before.edges);
            assert forall|i: int| 0 <= i < k && (#[trigger] edges[i]).from != edges[i].to implies is_named(
                state,
                i,
            ) by {
                assert(is_named(before, i));
                let e = choose|e: usize| #[trigger]
                    before.edges.contains_key(e) && before.edges[e].data.orig == i;
                assert(state.edges.contains_key(e));
            }
            assert forall|e: usize| #[trigger] state.edges.contains_key(e) implies e
                < state.next_edge && stands_for(state, edges, ports, k, e) by {
                assert(before.edges.contains_key(e));
            }
        } else {
            let id = before.next_edge as usize;
            assert(loops_of(edges, k) == loops);
            assert(state.edges.contains_key(id));
            assert forall|v: usize| #[trigger] state.nodes.contains_key(
                v,
            ) implies !state.nodes[v].data.is_dummy && state.nodes[v].data.self_loops == loop_nodes(
                loops,
            ).to_multiset().count(v) by {
                assert(before.nodes.contains_key(edge.from) && before.nodes.contains_key(edge.to));
                assert(before.nodes.contains_key(v));
            }
            assert forall|e: usize| #[trigger] state.edges.contains_key(e) implies e
                < state.next_edge && stands_for(state, edges, ports, k, e) by {
                if e != id {
                    assert(before.edges.contains_key(e));
                }
            }
            assert forall|d: usize, e: usize|
                #![trigger state.edges.contains_key(d), state.edges.contains_key(e)]
                state.edges.contains_key(d) && state.edges.contains_key(e) && d
                    < e implies state.edges[d].data.orig < state.edges[e].data.orig by {
                assert(d != id) by {
                    if d == id && e != id {
                        assert(before.edges.contains_key(e));
                    }
                }
                assert(before.edges.contains_key(d));
                if e != id {
                    assert(before.edges.contains_key(e));
                }
            }
            assert forall|i: int| 0 <= i < k && (#[trigger] edges[i]).from != edges[i].to implies is_named(
                state,
                i,
            ) by {
                if i < k - 1 {
                    assert(is_named(before, i));
                    let e = choose|e: usize| #[trigger]
                        before.edges.contains_key(e) && before.edges[e].data.orig == i;
                    assert(before.edges.contains_key(e));
                    assert(state.edges.contains_key(e));
                }
            }
        }
    } else {
        assert(loop_nodes(loops_of(edges, 0)) =~= Seq::<usize>::empty());
        assert forall|v: usize| loop_nodes(loops_of(edges, 0)).to_multiset().count(v) == 0 by {
            assert(!loop_nodes(loops_of(edges, 0)).contains(v));
        }
        assert forall|e: usize| !state.edges.contains_key(e) by {
            assert(!state.edges.dom().contains(e));
        }
    }
}

proof fn lemma_loops_len(edges: Seq<IEdge>, k: int)
    requires
        0 <= k,
    ensures
        loops_of(edges, k).len() <= k,
    decreases k,
{
    if k > 0 {
        lemma_loops_len(edges, k - 1);
    }
}

proof fn lemma_count_len(list: Seq<usize>, v: usize)
    ensures
        list.to_multiset().count(v) <= list.len(),
{
    broadcast use vstd::seq_lib::group_to_multiset_ensures;
    broadcast use vstd::multiset::group_multiset_axioms;

    assert(list.to_multiset().count(v) <= list.to_multiset().len());
}

/// The loops are the edges that lead from a node to itself, in their order.
pub proof fn law_loops_are_listed(edges: Seq<IEdge>, k: int)
    requires
        0 <= k <= edges.len(),
        edges.len() <= usize::MAX,
    ensures
        ({
            let loops = loops_of(edges, k);
            &&& forall|j: int|
                #![trigger loops[j]]
                0 <= j < loops.len() ==> loops[j].0 < k && edges[loops[j].0 as int].from
                    == loops[j].1 && edges[loops[j].0 as int].to == loops[j].1
            &&& forall|i: int, j: int|
                0 <= i < j < loops.len() ==> (#[trigger] loops[i]).0 < (#[trigger] loops[j]).0
            &&& forall|i: int|
                0 <= i < k && (#[trigger] edges[i]).from == edges[i].to ==> loops.contains(
                    (i as usize, edges[i].from),
                )
        }),
    decreases k,
{
    if k > 0 {
        law_loops_are_listed(edges, k - 1);
        let before = loops_of(edges, k - 1);
        let loops = loops_of(edges, k);
        assert forall|j: int| #![trigger loops[j]] 0 <= j < loops.len() implies loops[j].0 < k
            && edges[loops[j].0 as int].from == loops[j].1 && edges[loops[j].0 as int].to
            == loops[j].1 by {
            if j < before.len() {
                assert(loops[j] == before[j]);
            }
        }
        assert forall|i: int, j: int| 0 <= i < j < loops.len() implies (#[trigger] loops[i]).0 < (
        #[trigger] loops[j]).0 by {
            assert(loops[i] == before[i]);
            if j < before.len() {
                assert(loops[j] == before[j]);
            }
        }
        assert forall|i: int| 0 <= i < k && (#[trigger] edges[i]).from == edges[i].to implies loops.contains(
            (i as usize, edges[i].from),
        ) by {
            if i < k - 1 {
                let j = before.index_of((i as usize, edges[i].from));
                assert(loops[j] == before[j]);
            } else {
                assert(loops[before.len() as int] == (i as usize, edges[i].from));
            }
        }
    }
}

// Choices.

/// The hammocks chosen have no node in common.
pub proof fn law_chosen_hammocks_are_apart(
    tree: TreeIndex,
    list: Seq<HammockCandidate>,
    order: Seq<usize>,
    k: nat,
    i: int,
    j: int,
)
    requires
        0 <= i < j < chosen_hammocks(tree, list, order, k).len(),
    ensures
        are_apart(
            tree,
            chosen_hammocks(tree, list, order, k)[i],
            chosen_hammocks(tree, list, order, k)[j],
        ),
    decreases k,
{
    if k > 0 {
        let before = chosen_hammocks(tree, list, order, (k - 1) as nat);
        if j < before.len() {
            law_chosen_hammocks_are_apart(tree, list, order, (k - 1) as nat, i, j);
        } else {
            assert(are_apart(tree, before[i], list[order[k - 1] as int]));
        }
    }
}

/// A hammock that is considered is chosen, unless it has a node in common with one that was
/// considered before it and chosen; what is chosen once stays chosen.
pub proof fn law_hammocks_are_chosen_in_turn(
    tree: TreeIndex,
    list: Seq<HammockCandidate>,
    order: Seq<usize>,
    k: nat,
    i: nat,
)
    requires
        i < k <= order.len(),
    ensures
        ({
            let c = list[order[i as int] as int];
            let earlier = chosen_hammocks(tree, list, order, i);
            let chosen = chosen_hammocks(tree, list, order, k);
            &&& earlier.is_prefix_of(chosen)
            &&& chosen.contains(c) || meets(tree, earlier, c)
        }),
    decreases k,
{
    let c = list[order[i as int] as int];
    let earlier = chosen_hammocks(tree, list, order, i);
    let before = chosen_hammocks(tree, list, order, (k - 1) as nat);
    let chosen = chosen_hammocks(tree, list, order, k);
    assert(before.is_prefix_of(chosen));
    if i == k - 1 {
        if is_apart_from(tree, before, c) {
            assert(chosen[before.len() as int] == c);
        } else {
            let j = choose|j: int|
                0 <= j < before.len() && !are_apart(tree, #[trigger] before[j], c);
            assert(!are_apart(tree, earlier[j], c));
        }
    } else {
        law_hammocks_are_chosen_in_turn(tree, list, order, (k - 1) as nat, i);
        if before.contains(c) {
            assert(chosen[before.index_of(c)] == c);
        }
    }
}

/// One of the hammocks has a node in common with `c`.
pub open spec fn meets(tree: TreeIndex, chosen: Seq<HammockCandidate>, c: HammockCandidate) -> bool {
    exists|j: int| 0 <= j < chosen.len() && !are_apart(tree, #[trigger] chosen[j], c)
}

/// Only hammocks that were considered are chosen.
pub proof fn law_chosen_hammocks_were_considered(
    tree: TreeIndex,
    list: Seq<HammockCandidate>,
    order: Seq<usize>,
    k: nat,
    j: int,
) -> (i: int)
    requires
        0 <= j < chosen_hammocks(tree, list, order, k).len(),
    ensures
        0 <= i < k,
        chosen_hammocks(tree, list, order, k)[j] == list[order[i] as int],
    decreases k,
{
    if k == 0 {
        0
    } else {
        let before = chosen_hammocks(tree, list, order, (k - 1) as nat);
        if j < before.len() {
            law_chosen_hammocks_were_considered(tree, list, order, (k - 1) as nat, j)
        } else {
            k - 1
        }
    }
}

/// The candidates chosen are nested in hammocks, ascend, and fit together with each other;
/// each that is nested is chosen, or does not fit together with those chosen before it.
pub proof fn law_chosen_cuts_fit_together(cuts: Seq<Cut>, hammocks: Seq<DenseHammock>, k: int)
    requires
        0 <= k <= cuts.len(),
        cuts.len() <= usize::MAX,
    ensures
        ({
            let chosen = chosen_cuts(cuts, hammocks, k);
            &&& forall|i: int|
                0 <= i < chosen.len() ==> #[trigger] chosen[i] < k && is_nested(
                    cuts[chosen[i] as int],
                    hammocks,
                ) && joins(cuts[chosen[i] as int], cuts, chosen.take(i))
            &&& forall|i: int, j: int|
                0 <= i < j < chosen.len() ==> #[trigger] chosen[i] < #[trigger] chosen[j]
            &&& forall|c: int|
                0 <= c < k && is_nested(#[trigger] cuts[c], hammocks) ==> chosen.contains(
                    c as usize,
                ) || !joins(cuts[c], cuts, chosen_cuts(cuts, hammocks, c))
        }),
    decreases k,
{
    if k > 0 {
        law_chosen_cuts_fit_together(cuts, hammocks, k - 1);
        let before = chosen_cuts(cuts, hammocks, k - 1);
        let chosen = chosen_cuts(cuts, hammocks, k);
        assert forall|i: int| 0 <= i < chosen.len() implies #[trigger] chosen[i] < k && is_nested(
            cuts[chosen[i] as int],
            hammocks,
        ) && joins(cuts[chosen[i] as int], cuts, chosen.take(i)) by {
            if i < before.len() {
                assert(chosen[i] == before[i]);
                assert(chosen.take(i) =~= before.take(i));
            } else {
                assert(chosen.take(i) =~= before);
            }
        }
        assert forall|i: int, j: int| 0 <= i < j < chosen.len() implies #[trigger] chosen[i]
            < #[trigger] chosen[j] by {
            assert(chosen[i] == before[i]);
            if j < before.len() {
                assert(chosen[j] == before[j]);
            }
        }
        assert forall|c: int|
            0 <= c < k && is_nested(#[trigger] cuts[c], hammocks) implies chosen.contains(
            c as usize,
        ) || !joins(cuts[c], cuts, chosen_cuts(cuts, hammocks, c)) by {
            if c < k - 1 {
                if before.contains(c as usize) {
                    assert(chosen[before.index_of(c as usize)] == c as usize);
                }
            } else if joins(cuts[c], cuts, before) {
                assert(chosen[before.len() as int] == c as usize);
            }
        }
    }
}

/// The regions that are kept: the outermost one, and all the real ones, in their order.
pub proof fn law_real_regions_are_kept(regions: Seq<RawRegion>, n: int, m: int, k: int)
    requires
        1 <= k <= regions.len(),
    ensures
        ({
            let kept = real_regions(regions, n, m, k);
            &&& kept.len() > 0 && kept[0] == 0
            &&& forall|i: int, j: int|
                0 <= i < j < kept.len() ==> #[trigger] kept[i] < #[trigger] kept[j]
            &&& forall|i: int|
                1 <= i < kept.len() ==> 1 <= #[trigger] kept[i] < k && is_real(
                    regions[kept[i]],
                    n,
                    m,
                )
            &&& forall|r: int|
                1 <= r < k && is_real(#[trigger] regions[r], n, m) ==> kept.contains(r)
        }),
    decreases k,
{
    if k > 1 {
        law_real_regions_are_kept(regions, n, m, k - 1);
        let before = real_regions(regions, n, m, k - 1);
        let kept = real_regions(regions, n, m, k);
        assert forall|i: int| 1 <= i < kept.len() implies 1 <= #[trigger] kept[i] < k && is_real(
            regions[kept[i]],
            n,
            m,
        ) by {
            if i < before.len() {
                assert(kept[i] == before[i]);
            }
        }
        assert forall|i: int, j: int| 0 <= i < j < kept.len() implies #[trigger] kept[i]
            < #[trigger] kept[j] by {
            assert(kept[i] == before[i]);
            if j < before.len() {
                assert(kept[j] == before[j]);
            }
        }
        assert forall|r: int| 1 <= r < k && is_real(
            #[trigger] regions[r],
            n,
            m,
        ) implies kept.contains(r) by {
            if r < k - 1 {
                assert(kept[before.index_of(r)] == r);
            } else {
                assert(kept[before.len() as int] == r);
            }
        }
    }
}

/// The region `a` is reached from `k` by going up from region to region, over none that is
/// real.
pub open spec fn is_real_path(regions: Seq<RawRegion>, n: int, m: int, path: Seq<int>, k: int, a: int) -> bool {
    &&& path.len() >= 2
    &&& path[0] == k
    &&& path.last() == a
    &&& forall|i: int|
        0 <= i < path.len() - 1 ==> regions[#[trigger] path[i]].parent == Some(path[i + 1] as usize)
    &&& forall|i: int|
        1 <= i < path.len() - 1 ==> !is_real(regions[#[trigger] path[i]], n, m)
}

/// The region above another is the nearest real one on the way up, or the outermost.
pub proof fn law_region_above_is_the_nearest(regions: Seq<RawRegion>, n: int, m: int, k: int) -> (path: Seq<int>)
    requires
        1 <= k < regions.len(),
        regions.len() <= usize::MAX,
        forall|r: int|
            #![trigger regions[r]]
            1 <= r < regions.len() ==> (regions[r].parent matches Some(p) && p < r),
    ensures
        is_real_path(regions, n, m, path, k, real_above(regions, n, m, k)),
        real_above(regions, n, m, k) == 0 || is_real(
            regions[real_above(regions, n, m, k)],
            n,
            m,
        ),
    decreases k,
{
    assert(regions[k].parent is Some);
    let p = regions[k].parent->Some_0 as int;
    if p == 0 || is_real(regions[p], n, m) {
        let path = seq![k, p];
        assert(is_real_path(regions, n, m, path, k, p));
        path
    } else {
        let rest = law_region_above_is_the_nearest(regions, n, m, p);
        let path = seq![k] + rest;
        assert forall|i: int| 0 <= i < path.len() - 1 implies regions[#[trigger] path[i]].parent
            == Some(path[i + 1] as usize) by {
            if i > 0 {
                assert(path[i] == rest[i - 1] && path[i + 1] == rest[i]);
            } else {
                assert(path[1] == rest[0]);
            }
        }
        assert forall|i: int| 1 <= i < path.len() - 1 implies !is_real(
            regions[#[trigger] path[i]],
            n,
            m,
        ) by {
            assert(path[i] == rest[i - 1]);
        }
        path
    }
}

/// There is an edge to the sink from each node that no edge leaves for another, and from no
/// other.
pub proof fn law_natural_exits_lead_to_the_sink(edges: Seq<IEdge>, n: int)
    requires
        0 <= n,
        n + 2 <= usize::MAX,
    ensures
        forall|j: int|
            #![trigger natural_exits(edges, n)[j]]
            0 <= j < natural_exits(edges, n).len() ==> {
                let e = natural_exits(edges, n)[j];
                &&& e.to == 1
                &&& 2 <= e.from < n + 2
                &&& is_natural_exit(edges, e.from - 2)
            },
        forall|v: int|
            0 <= v < n && #[trigger] is_natural_exit(edges, v) ==> natural_exits(
                edges,
                n,
            ).contains(IEdge { from: (v + 2) as usize, to: 1 }),
    decreases n,
{
    if n > 0 {
        law_natural_exits_lead_to_the_sink(edges, n - 1);
        let before = natural_exits(edges, n - 1);
        let all = natural_exits(edges, n);
        assert forall|j: int| #![trigger all[j]] 0 <= j < all.len() implies {
            let e = all[j];
            &&& e.to == 1
            &&& 2 <= e.from < n + 2
            &&& is_natural_exit(edges, e.from - 2)
        } by {
            if j < before.len() {
                assert(all[j] == before[j]);
            }
        }
        assert forall|v: int| 0 <= v < n && #[trigger] is_natural_exit(
            edges,
            v,
        ) implies all.contains(IEdge { from: (v + 2) as usize, to: 1 }) by {
            let e = IEdge { from: (v + 2) as usize, to: 1 };
            if v < n - 1 {
                assert(all[before.index_of(e)] == e);
            } else {
                assert(all[before.len() as int] == e);
            }
        }
    }
}

} // verus!
