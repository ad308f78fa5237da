//! The regions that a layout is composed of.
//!
//! Regions are computed on a flow graph normalized into one explicit hammock: an
//! analysis-only source enters the selected root and all natural exits enter an
//! analysis-only sink. The synthetic boundaries establish the outer hammock without
//! leaking fake nodes or edges into the composition tree.
use crate::graph::analysis::nesting::{
    assign_owners, first_smallest, holders, holds_all, is_laminar, is_ownership, lemma_push_child,
    list_holds_all, lists_children, lists_laminar, smallest_holder,
};
use crate::graph::analysis::sese::{
    compute_sese, compute_sese_candidates, copy_list, ends_below, is_candidate_list, is_sese_tree,
    is_tree_of, pick, picked, Candidate, IEdge, SeseCandidate, SeseRegion, SeseTree,
};
use crate::graph::laws::{law_make_edge_keeps_links, law_make_node_keeps_links};
use crate::graph::owning::{is_linked, EdgeEntry, OwningGraph};
use crate::graph::{is_navigable, Graph};
use crate::sorting::{is_sorted_order, sorted_order, Key};
use crate::indexing::{index_ids, numbers_list, position};
use crate::registry::Identifier;
use crate::triskel::hammock::{
    are_hammocks, dense_hammocks, edges_within, law_hammocks_have_boundaries, lemma_nodes_below,
    listed_part, part_of, DenseHammock, Part,
};
use vstd::prelude::*;

verus! {

/// A graph without payloads.
pub type FlowGraph = OwningGraph<usize, usize, (), ()>;

/// No edge but loops leaves the node `v`.
pub open spec fn is_natural_exit(edges: Seq<IEdge>, v: int) -> bool {
    forall|i: int| #![trigger edges[i]] 0 <= i < edges.len() && edges[i].from == v ==> edges[i].to == v
}

/// The natural exits among the first `v` nodes, each with an edge to the sink.
pub open spec fn natural_exits(edges: Seq<IEdge>, v: int) -> Seq<IEdge>
    decreases v,
{
    if v <= 0 {
        Seq::empty()
    } else {
        let before = natural_exits(edges, v - 1);
        if is_natural_exit(edges, v - 1) {
            before.push(IEdge { from: (v + 1) as usize, to: 1 })
        } else {
            before
        }
    }
}

/// The edges to the sink: from all natural exits, or from the last node if there is none.
pub open spec fn sink_edges(n: int, edges: Seq<IEdge>) -> Seq<IEdge> {
    let exits = natural_exits(edges, n);
    if exits.len() == 0 {
        seq![IEdge { from: (n + 1) as usize, to: 1 }]
    } else {
        exits
    }
}

/// The edges between nodes, moved behind the source and the sink.
pub open spec fn moved_edges(edges: Seq<IEdge>) -> Seq<IEdge> {
    edges.map_values(|e: IEdge| IEdge { from: (e.from + 2) as usize, to: (e.to + 2) as usize })
}

/// The edges of the normalized flow graph: from the source (node 0) to the root, those
/// between nodes, and those to the sink (node 1).
pub open spec fn normalized_edges(n: int, root: int, edges: Seq<IEdge>) -> Seq<IEdge> {
    seq![IEdge { from: 0, to: (root + 2) as usize }] + moved_edges(edges) + sink_edges(n, edges)
}

/// The graph has `n` nodes and these edges, numbered from zero.
pub open spec fn is_flow_graph(graph: &FlowGraph, n: int, edges: Seq<IEdge>) -> bool {
    &&& graph.wf()
    &&& is_linked(graph.node_map(), graph.edge_map())
    &&& graph.next_node() == n
    &&& graph.next_edge() == edges.len()
    &&& forall|v: usize| #[trigger] graph.node_map().contains_key(v) <==> v < n
    &&& forall|e: usize| #[trigger] graph.edge_map().contains_key(e) <==> e < edges.len()
    &&& forall|e: usize| #[trigger]
        graph.edge_map().contains_key(e) ==> graph.edge_map()[e].from == edges[e as int].from
            && graph.edge_map()[e].to == edges[e as int].to
}

/// Adds an edge.
pub(crate) fn add_edge(graph: &mut FlowGraph, from: usize, to: usize, Ghost(n): Ghost<int>, Ghost(edges): Ghost<Seq<IEdge>>)
    requires
        is_flow_graph(&*old(graph), n, edges),
        from < n,
        to < n,
        edges.len() < usize::MAX,
    ensures
        is_flow_graph(&*final(graph), n, edges.push(IEdge { from, to })),
{
    let ghost before = *graph;
    proof {
        assert(graph.node_map().contains_key(from) && graph.node_map().contains_key(to));
        law_make_edge_keeps_links(
            graph.node_map(),
            graph.edge_map(),
            edges.len() as usize,
            EdgeEntry { from, to, data: () },
        );
    }
    graph.make_edge(from, to, ());
    proof {
        let more = edges.push(IEdge { from, to });
        assert forall|v: usize| #[trigger] graph.node_map().contains_key(v) <==> v < n by {
            assert(before.node_map().contains_key(v) <==> v < n);
        }
        assert forall|e: usize| #[trigger] graph.edge_map().contains_key(e) <==> e < more.len() by {
            assert(before.edge_map().contains_key(e) <==> e < edges.len());
        }
        assert forall|e: usize| #[trigger] graph.edge_map().contains_key(e) implies graph.edge_map()[e].from
            == more[e as int].from && graph.edge_map()[e].to == more[e as int].to by {
            if e < edges.len() {
                assert(before.edge_map().contains_key(e));
            }
        }
    }
}

/// A graph of nodes alone.
pub(crate) fn bare_graph(n: usize) -> (graph: FlowGraph)
    ensures
        is_flow_graph(&graph, n as int, Seq::empty()),
{
    let mut graph: FlowGraph = OwningGraph::default();
    proof {
        graph.lemma_unissued();
    }
    for i in 0..n
        invariant
            is_flow_graph(&graph, i as int, Seq::empty()),
    {
        let ghost before = graph;
        proof {
            law_make_node_keeps_links(graph.node_map(), graph.edge_map(), i, ());
        }
        graph.make_node(());
        proof {
            assert forall|v: usize| #[trigger] graph.node_map().contains_key(v) <==> v < i + 1 by {
                assert(before.node_map().contains_key(v) <==> v < i);
            }
        }
    }
    graph
}

/// Whether no edge but loops leaves a node.
fn leaves_nowhere(edges: &Vec<IEdge>, v: usize) -> (b: bool)
    ensures
        b == is_natural_exit(edges@, v as int),
{
    for i in 0..edges.len()
        invariant
            forall|k: int|
                #![trigger edges@[k]]
                0 <= k < i && edges@[k].from == v ==> edges@[k].to == v,
    {
        if edges[i].from == v && edges[i].to != v {
            return false;
        }
    }
    true
}

/// Normalizes a flow graph.
fn normalize_flow(n: usize, root: usize, edges: &Vec<IEdge>) -> (graph: FlowGraph)
    requires
        root < n,
        ends_below(edges@, n as int),
        n + 2 < usize::MAX,
        edges@.len() + n + 2 < usize::MAX,
    ensures
        is_flow_graph(
            &graph,
            n + 2,
            normalized_edges(n as int, root as int, edges@),
        ),
{
    let mut graph = bare_graph(n + 2);
    add_edge(&mut graph, 0, root + 2, Ghost(n + 2), Ghost(Seq::empty()));
    let ghost first = seq![IEdge { from: 0, to: (root + 2) as usize }];
    assert(Seq::empty().push(IEdge { from: 0, to: (root + 2) as usize }) =~= first);
    assert(first + moved_edges(edges@.take(0)) =~= first);
    for i in 0..edges.len()
        invariant
            ends_below(edges@, n as int),
            edges@.len() + n + 2 < usize::MAX,
            first.len() == 1,
            is_flow_graph(&graph, n + 2, first + moved_edges(edges@.take(i as int))),
    {
        assert(edges@[i as int].from < n && edges@[i as int].to < n);
        let edge = &edges[i];
        add_edge(
            &mut graph,
            edge.from + 2,
            edge.to + 2,
            Ghost(n + 2),
            Ghost(first + moved_edges(edges@.take(i as int))),
        );
        assert((first + moved_edges(edges@.take(i as int))).push(
            IEdge { from: (edge.from + 2) as usize, to: (edge.to + 2) as usize },
        ) =~= first + moved_edges(edges@.take(i + 1)));
    }
    assert(edges@.take(edges@.len() as int) =~= edges@);
    let ghost inner = first + moved_edges(edges@);
    let mut found: usize = 0;
    assert(inner + natural_exits(edges@, 0) =~= inner);
    for v in 0..n
        invariant
            n + 2 < usize::MAX,
            inner.len() == 1 + edges@.len(),
            edges@.len() + n + 2 < usize::MAX,
            found <= v,
            found == natural_exits(edges@, v as int).len(),
            is_flow_graph(&graph, n + 2, inner + natural_exits(edges@, v as int)),
    {
        if leaves_nowhere(edges, v) {
            add_edge(
                &mut graph,
                v + 2,
                1,
                Ghost(n + 2),
                Ghost(inner + natural_exits(edges@, v as int)),
            );
            found = found + 1;
            assert((inner + natural_exits(edges@, v as int)).push(
                IEdge { from: (v + 2) as usize, to: 1 },
            ) =~= inner + natural_exits(edges@, v + 1));
        }
    }
    if found == 0 {
        assert(inner + natural_exits(edges@, n as int) =~= inner);
        add_edge(&mut graph, n + 1, 1, Ghost(n + 2), Ghost(inner));
        assert(inner.push(IEdge { from: (n + 1) as usize, to: 1 }) =~= normalized_edges(
            n as int,
            root as int,
            edges@,
        ));
    } else {
        assert(inner + natural_exits(edges@, n as int) =~= normalized_edges(
            n as int,
            root as int,
            edges@,
        ));
    }
    graph
}

// Regions without synthetic parts.

/// Nested regions: the nodes of each (by number), its parent, its children, the nodes that
/// belong to no child, and the edges through which it is entered and left. The first
/// region holds all nodes and has no boundary.
pub struct RegionTree {
    pub sets: Vec<Vec<usize>>,
    pub parent: Vec<usize>,
    pub children: Vec<Vec<usize>>,
    pub owned: Vec<Vec<usize>>,
    pub bounds: Vec<Option<(usize, usize)>>,
}

pub type RawRegion = SeseRegion<usize, usize>;

/// All nodes are nodes of the graph that was normalized.
pub open spec fn are_inner(nodes: Seq<usize>, n: int) -> bool {
    forall|i: int| 0 <= i < nodes.len() ==> 2 <= #[trigger] nodes[i] < n + 2
}

/// The edge is one of the graph that was normalized.
pub open spec fn is_inner_edge(edge: int, m: int) -> bool {
    1 <= edge <= m
}

/// The nodes as they were numbered before the graph was normalized.
pub open spec fn lowered(nodes: Seq<usize>) -> Seq<usize> {
    nodes.map_values(|v: usize| (v - 2) as usize)
}

/// A region with real boundaries and real nodes.
pub open spec fn is_real(region: RawRegion, n: int, m: int) -> bool {
    &&& region.entry_edge matches Some(a) && is_inner_edge(a as int, m)
    &&& region.exit_edge matches Some(b) && is_inner_edge(b as int, m)
    &&& region.contained_nodes@.len() > 0
    &&& are_inner(region.contained_nodes@, n)
}

/// The outermost region, and the real ones among the first `k`.
pub open spec fn real_regions(regions: Seq<RawRegion>, n: int, m: int, k: int) -> Seq<int>
    decreases k,
{
    if k <= 1 {
        seq![0int]
    } else {
        let before = real_regions(regions, n, m, k - 1);
        if is_real(regions[k - 1], n, m) {
            before.push(k - 1)
        } else {
            before
        }
    }
}

/// The nearest region above `k` that is real, or the outermost one.
pub open spec fn real_above(regions: Seq<RawRegion>, n: int, m: int, k: int) -> int
    decreases k,
{
    match regions[k].parent {
        Some(p) => if p >= k || p == 0 {
            0
        } else if is_real(regions[p as int], n, m) {
            p as int
        } else {
            real_above(regions, n, m, p as int)
        },
        None => 0,
    }
}

/// The list of all numbers below `n`.
pub open spec fn is_range(list: Seq<usize>, n: int) -> bool {
    &&& list.len() == n
    &&& forall|v: int| 0 <= v < n ==> #[trigger] list[v] == v
}

/// The tree has the real regions of a list, each below the nearest real region above it.
pub open spec fn is_stripped(
    regions: Seq<RawRegion>,
    n: int,
    m: int,
    tree: RegionTree,
) -> bool {
    let kept = real_regions(regions, n, m, regions.len() as int);
    &&& tree.sets@.len() == kept.len()
    &&& tree.bounds@.len() == kept.len()
    &&& tree.parent@.len() == kept.len()
    &&& tree.children@.len() == kept.len()
    &&& is_range(tree.sets@[0]@, n)
    &&& tree.bounds@[0] is None
    &&& forall|i: int|
        #![trigger tree.sets@[i]]
        1 <= i < kept.len() ==> {
            let region = regions[kept[i]];
            &&& tree.sets@[i]@ == lowered(region.contained_nodes@)
            &&& tree.bounds@[i] == Some(
                ((region.entry_edge->0 - 1) as usize, (region.exit_edge->0 - 1) as usize),
            )
            &&& tree.parent@[i] < i
            &&& kept[tree.parent@[i] as int] == real_above(regions, n, m, kept[i])
        }
    &&& lists_children(tree.parent@, tree.children@, kept.len() as int)
    &&& is_ownership(tree.sets@, 1, n, tree.owned@)
}

/// Regions come after their parents.
pub open spec fn comes_after_parent(regions: Seq<RawRegion>) -> bool {
    forall|k: int|
        #![trigger regions[k]]
        1 <= k < regions.len() ==> (regions[k].parent matches Some(p) && p < k)
}

pub(crate) proof fn lemma_real_regions(regions: Seq<RawRegion>, n: int, m: int, k: int)
    requires
        1 <= k,
    ensures
        real_regions(regions, n, m, k).len() >= 1,
        real_regions(regions, n, m, k)[0] == 0,
        forall|i: int|
            #![trigger real_regions(regions, n, m, k)[i]]
            1 <= i < real_regions(regions, n, m, k).len() ==> 1 <= real_regions(
                regions,
                n,
                m,
                k,
            )[i] < k && is_real(regions[real_regions(regions, n, m, k)[i]], n, m),
    decreases k,
{
    if k > 1 {
        lemma_real_regions(regions, n, m, k - 1);
        let before = real_regions(regions, n, m, k - 1);
        let all = real_regions(regions, n, m, k);
        assert forall|i: int|
            #![trigger all[i]]
            1 <= i < all.len() implies 1 <= all[i] < k && is_real(regions[all[i]], n, m) by {
            if i < before.len() {
                assert(all[i] == before[i]);
            }
        }
    }
}

fn full_range(n: usize) -> (list: Vec<usize>)
    ensures
        is_range(list@, n as int),
{
    let mut list: Vec<usize> = Vec::new();
    for v in 0..n
        invariant
            is_range(list@, v as int),
    {
        list.push(v);
    }
    list
}

fn has_inner_nodes(nodes: &Vec<usize>, n: usize) -> (b: bool)
    requires
        n + 2 <= usize::MAX,
    ensures
        b == are_inner(nodes@, n as int),
{
    for i in 0..nodes.len()
        invariant
            n + 2 <= usize::MAX,
            forall|k: int| 0 <= k < i ==> 2 <= #[trigger] nodes@[k] < n + 2,
    {
        if nodes[i] < 2 || nodes[i] >= n + 2 {
            return false;
        }
    }
    true
}

fn lower_nodes(nodes: &Vec<usize>, Ghost(n): Ghost<int>) -> (lower: Vec<usize>)
    requires
        are_inner(nodes@, n),
    ensures
        lower@ == lowered(nodes@),
{
    let mut lower: Vec<usize> = Vec::new();
    for i in 0..nodes.len()
        invariant
            are_inner(nodes@, n),
            lower@ == lowered(nodes@).take(i as int),
    {
        assert(2 <= nodes@[i as int]);
        lower.push(nodes[i] - 2);
        assert(lower@ =~= lowered(nodes@).take(i + 1));
    }
    assert(lower@ =~= lowered(nodes@));
    lower
}

/// The boundary of a real region.
fn real_boundary(region: &RawRegion, n: usize, m: usize) -> (bounds: Option<(usize, usize)>)
    requires
        n + 2 <= usize::MAX,
    ensures
        bounds is Some <==> is_real(*region, n as int, m as int),
        bounds matches Some(b) ==> b.0 == region.entry_edge->0 - 1 && b.1 == region.exit_edge->0 - 1,
{
    match (region.entry_edge, region.exit_edge) {
        (Some(a), Some(b)) => {
            if 1 <= a && a <= m && 1 <= b && b <= m && region.contained_nodes.len() > 0
                && has_inner_nodes(&region.contained_nodes, n) {
                Some((a - 1, b - 1))
            } else {
                None
            }
        },
        _ => None,
    }
}

/// Drops the regions with synthetic parts.
#[verifier::rlimit(40)]
fn strip_regions(raw: &Vec<RawRegion>, n: usize, m: usize) -> (tree: RegionTree)
    requires
        raw@.len() > 0,
        comes_after_parent(raw@),
        n + 2 <= usize::MAX,
    ensures
        is_stripped(raw@, n as int, m as int, tree),
{
    let ghost regions = raw@;
    let mut sets: Vec<Vec<usize>> = Vec::new();
    sets.push(full_range(n));
    let mut bounds: Vec<Option<(usize, usize)>> = Vec::new();
    bounds.push(None);
    let mut parent: Vec<usize> = Vec::new();
    parent.push(0);
    let mut children: Vec<Vec<usize>> = Vec::new();
    children.push(Vec::new());
    // For each raw region, its own number if it is real, else that of the nearest real one
    // above it.
    let mut nearest: Vec<usize> = Vec::new();
    nearest.push(0);
    let count = raw.len();
    let mut k: usize = 1;
    while k < count
        invariant
            regions == raw@,
            count == regions.len(),
            1 <= k <= count,
            sets@.len() >= 1,
            comes_after_parent(regions),
            n + 2 <= usize::MAX,
            nearest@.len() == k,
            sets@.len() <= k,
            sets@.len() == real_regions(regions, n as int, m as int, k as int).len(),
            bounds@.len() == sets@.len(),
            parent@.len() == sets@.len(),
            children@.len() == sets@.len(),
            is_range(sets@[0]@, n as int),
            bounds@[0] is None,
            real_regions(regions, n as int, m as int, k as int)[0] == 0,
            forall|i: int|
                #![trigger sets@[i]]
                1 <= i < sets@.len() ==> {
                    let kept = real_regions(regions, n as int, m as int, k as int);
                    let region = regions[kept[i]];
                    &&& sets@[i]@ == lowered(region.contained_nodes@)
                    &&& bounds@[i] == Some(
                        ((region.entry_edge->0 - 1) as usize, (region.exit_edge->0 - 1) as usize),
                    )
                    &&& parent@[i] < i
                    &&& kept[parent@[i] as int] == real_above(
                        regions,
                        n as int,
                        m as int,
                        kept[i],
                    )
                },
            forall|j: int|
                #![trigger nearest@[j]]
                0 <= j < k ==> {
                    let kept = real_regions(regions, n as int, m as int, k as int);
                    &&& nearest@[j] < sets@.len()
                    &&& kept[nearest@[j] as int] == if j == 0 || is_real(
                        regions[j],
                        n as int,
                        m as int,
                    ) {
                        j
                    } else {
                        real_above(regions, n as int, m as int, j)
                    }
                },
            lists_children(parent@, children@, sets@.len() as int),
        decreases count - k,
    {
        let region = &raw[k];
        let ghost kept = real_regions(regions, n as int, m as int, k as int);
        let ghost more = real_regions(regions, n as int, m as int, k + 1);
        proof {
            assert(regions[k as int].parent is Some);
        }
        let up: usize = match region.parent {
            Some(p) => p,
            None => 0,
        };
        let above: usize = nearest[up];
        proof {
            assert(kept[nearest@[up as int] as int] == real_above(
                regions,
                n as int,
                m as int,
                k as int,
            ));
        }
        match real_boundary(region, n, m) {
            Some(b) => {
                let i = sets.len();
                let ghost sets0 = sets@;
                let ghost parent0 = parent@;
                let ghost children0 = children@;
                assert(is_real(regions[k as int], n as int, m as int));
                sets.push(lower_nodes(&region.contained_nodes, Ghost(n as int)));
                bounds.push(Some(b));
                parent.push(above);
                children.push(Vec::new());
                let ghost middle = children@;
                proof {
                    assert(lists_children(parent@, middle, i as int)) by {
                        assert forall|p: int| 0 <= p < middle.len() implies crate::graph::analysis::nesting::is_increasing(
                        (#[trigger] middle[p])@) by {
                            if p < children0.len() {
                                assert(middle[p] == children0[p]);
                            }
                        }
                        assert forall|p: int, c: usize| 0 <= p < middle.len() implies (
                        #[trigger] middle[p]@.contains(c) <==> 1 <= c < i && parent@[c as int]
                            == p) by {
                            if p < children0.len() {
                                assert(middle[p] == children0[p]);
                                assert(children0[p]@.contains(c) <==> 1 <= c < i
                                    && parent0[c as int] == p);
                            } else {
                                assert(1 <= c < i ==> parent@[c as int] < c) by {
                                    if 1 <= c < i {
                                        assert(sets0[c as int]@.len() >= 0);
                                    }
                                }
                            }
                        }
                    }
                }
                children[above].push(i);
                proof {
                    lemma_push_child(parent@, middle, children@, above as int, i);
                    assert(more == kept.push(k as int));
                }
                nearest.push(i);
                proof {
                    assert forall|q: int|
                        #![trigger sets@[q]]
                        1 <= q < sets@.len() implies {
                        let region = regions[more[q]];
                        &&& sets@[q]@ == lowered(region.contained_nodes@)
                        &&& bounds@[q] == Some(
                            (
                                (region.entry_edge->0 - 1) as usize,
                                (region.exit_edge->0 - 1) as usize,
                            ),
                        )
                        &&& parent@[q] < q
                        &&& more[parent@[q] as int] == real_above(
                            regions,
                            n as int,
                            m as int,
                            more[q],
                        )
                    } by {
                        if q < i {
                            assert(sets@[q] == sets0[q]);
                            assert(more[q] == kept[q]);
                            assert(parent@[q] == parent0[q]);
                        }
                    }
                }
            },
            None => {
                nearest.push(above);
                assert(more == kept);
            },
        }
        k = k + 1;
    }
    let owned = assign_owners(&sets, 1, n);
    RegionTree { sets, parent, children, owned, bounds }
}

/// The raw regions of a tree come after their parents.
proof fn lemma_raw_parents(graph: &FlowGraph, raw: SeseTree<usize, usize>)
    requires
        is_sese_tree(graph, 0, raw),
    ensures
        raw.regions@.len() > 0,
        comes_after_parent(raw.regions@),
{
    let (closed, list, selected, sets, parent, children, owned) = choose|
        closed: crate::graph::analysis::sese::ClosedFlow<usize, usize>,
        list: Seq<Candidate>,
        selected: Seq<usize>,
        sets: Seq<Vec<usize>>,
        parent: Seq<usize>,
        children: Seq<Vec<usize>>,
        owned: Seq<Vec<usize>>,
    |
        {
            &&& #[trigger] closed.represents(graph, 0)
            &&& crate::graph::analysis::sese::candidates_of(closed, list)
            &&& #[trigger] is_tree_of(
                closed,
                list,
                selected,
                sets,
                parent,
                children,
                owned,
                raw.regions@,
            )
        };
    let regions = raw.regions@;
    assert forall|k: int|
        #![trigger regions[k]]
        1 <= k < regions.len() implies regions[k].parent matches Some(p) && p < k by {
        assert(first_smallest(sets, holders(sets, sets[k]@), 0, k, parent[k] as int));
    }
}

/// `tree` are the regions of a flow graph: those of the normalized graph without synthetic
/// parts.
pub open spec fn are_sese_regions(n: int, root: int, edges: Seq<IEdge>, tree: RegionTree) -> bool {
    exists|graph: &FlowGraph, raw: SeseTree<usize, usize>|
        {
            &&& #[trigger] is_flow_graph(graph, n + 2, normalized_edges(n, root, edges))
            &&& #[trigger] is_sese_tree(graph, 0, raw)
            &&& is_stripped(raw.regions@, n, edges.len() as int, tree)
        }
}

pub(crate) proof fn lemma_flow_graph_navigable(graph: &FlowGraph, n: int, edges: Seq<IEdge>)
    requires
        is_flow_graph(graph, n, edges),
        0 <= n < usize::MAX,
    ensures
        is_navigable(graph),
        graph.spec_nodes().len() == n,
        forall|v: usize| #[trigger] graph.spec_nodes().contains(v) <==> v < n,
{
    graph.lemma_linked_is_navigable();
    graph.lemma_members();
    assert forall|v: usize| #[trigger] graph.spec_nodes().contains(v) <==> v < n by {
        assert(graph.node_map().contains_key(v) <==> v < n);
    }
    let list = graph.spec_nodes();
    let ids = list.map_values(|v: usize| v as int);
    assert forall|i: int| 0 <= i < ids.len() implies 0 <= #[trigger] ids[i] < n by {
        assert(list.contains(list[i]));
    }
    assert(ids.no_duplicates());
    crate::counting::lemma_distinct_in_range(ids, 0, n);
    if ids.len() < n {
        let all = Seq::new(n as nat, |v: int| v);
        assert(all.no_duplicates());
        all.unique_seq_to_set();
        ids.unique_seq_to_set();
        assert(all.to_set().subset_of(ids.to_set())) by {
            assert forall|v: int| all.to_set().contains(v) implies ids.to_set().contains(v) by {
                assert(all.contains(v));
                assert(list.contains(v as usize));
                let i = list.index_of(v as usize);
                assert(ids[i] == v);
            }
        }
        vstd::set_lib::lemma_len_subset(all.to_set(), ids.to_set());
    }
}

/// The regions of a flow graph of `n` nodes.
pub(crate) fn sese_regions(n: usize, root: usize, edges: &Vec<IEdge>) -> (tree: RegionTree)
    requires
        root < n,
        ends_below(edges@, n as int),
        edges@.len() + n + 2 < usize::MAX,
    ensures
        are_sese_regions(n as int, root as int, edges@, tree),
        is_within(tree, n as int, edges@.len() as int),
{
    let graph = normalize_flow(n, root, edges);
    proof {
        lemma_flow_graph_navigable(
            &graph,
            n + 2,
            normalized_edges(n as int, root as int, edges@),
        );
        assert(graph.spec_nodes().contains(0));
    }
    let raw = compute_sese(&graph, 0);
    proof {
        lemma_raw_parents(&graph, raw);
    }
    let tree = strip_regions(&raw.regions, n, edges.len());
    proof {
        assert(is_flow_graph(&graph, n + 2, normalized_edges(n as int, root as int, edges@)));
        assert(is_sese_tree(&graph, 0, raw));
        lemma_stripped_within(raw.regions@, n as int, edges@.len() as int, tree);
    }
    tree
}

/// Nodes and boundaries of regions are in range, and the lists fit together.
pub open spec fn is_within(tree: RegionTree, n: int, m: int) -> bool {
    &&& tree.sets@.len() > 0
    &&& tree.parent@.len() == tree.sets@.len()
    &&& tree.children@.len() == tree.sets@.len()
    &&& tree.owned@.len() == tree.sets@.len()
    &&& tree.bounds@.len() == tree.sets@.len()
    &&& tree.bounds@[0] is None
    &&& forall|i: int|
        #![trigger tree.sets@[i]]
        0 <= i < tree.sets@.len() ==> is_below(tree.sets@[i]@, n) && is_below(tree.owned@[i]@, n)
    &&& forall|i: int|
        #![trigger tree.bounds@[i]]
        1 <= i < tree.sets@.len() ==> (tree.bounds@[i] matches Some(b) && b.0 < m && b.1 < m)
}

pub open spec fn is_below(list: Seq<usize>, n: int) -> bool {
    forall|k: int| 0 <= k < list.len() ==> #[trigger] list[k] < n
}

proof fn lemma_owned_below(tree: RegionTree, lo: int, n: int, i: int)
    requires
        is_ownership(tree.sets@, lo, n, tree.owned@),
        0 <= i < tree.owned@.len(),
    ensures
        is_below(tree.owned@[i]@, n),
{
    let list = tree.owned@[i]@;
    assert forall|k: int| 0 <= k < list.len() implies #[trigger] list[k] < n by {
        assert(tree.owned@[i]@.contains(list[k]));
    }
}

proof fn lemma_stripped_within(regions: Seq<RawRegion>, n: int, m: int, tree: RegionTree)
    requires
        regions.len() > 0,
        is_stripped(regions, n, m, tree),
    ensures
        is_within(tree, n, m),
{
    let kept = real_regions(regions, n, m, regions.len() as int);
    lemma_real_regions(regions, n, m, regions.len() as int);
    assert forall|i: int|
        #![trigger tree.sets@[i]]
        0 <= i < tree.sets@.len() implies is_below(tree.sets@[i]@, n) && is_below(
        tree.owned@[i]@,
        n,
    ) by {
        lemma_owned_below(tree, 1, n, i);
        if i > 0 {
            assert(is_real(regions[kept[i]], n, m));
            let nodes = regions[kept[i]].contained_nodes@;
            assert forall|k: int| 0 <= k < nodes.len() implies #[trigger] lowered(nodes)[k]
                < n by {
                assert(2 <= nodes[k] < n + 2);
            }
        }
    }
    assert forall|i: int|
        #![trigger tree.bounds@[i]]
        1 <= i < tree.sets@.len() implies (tree.bounds@[i] matches Some(b) && b.0 < m && b.1
        < m) by {
        assert(is_real(regions[kept[i]], n, m));
        assert(tree.sets@[i]@.len() >= 0);
    }
}

// Candidates.

/// Nodes between two edges.
pub struct Cut {
    pub nodes: Seq<usize>,
    pub entry: usize,
    pub exit: usize,
}

pub open spec fn cut_of(c: Candidate) -> Cut {
    Cut { nodes: c.nodes@, entry: c.entry, exit: c.exit }
}

pub open spec fn cuts_of(list: Seq<Candidate>) -> Seq<Cut> {
    list.map_values(|c: Candidate| cut_of(c))
}

pub type RawCandidate = SeseCandidate<usize, usize>;

/// The real ones among the first `k` candidates of a normalized flow graph.
pub open spec fn real_cuts(found: Seq<RawCandidate>, n: int, m: int, k: int) -> Seq<Cut>
    decreases k,
{
    if k <= 0 {
        Seq::empty()
    } else {
        let before = real_cuts(found, n, m, k - 1);
        let c = found[k - 1];
        if is_inner_edge(c.entry_edge as int, m) && is_inner_edge(c.exit_edge as int, m)
            && are_inner(c.contained_nodes@, n) {
            before.push(
                Cut {
                    nodes: lowered(c.contained_nodes@),
                    entry: (c.entry_edge - 1) as usize,
                    exit: (c.exit_edge - 1) as usize,
                },
            )
        } else {
            before
        }
    }
}

/// `cuts` are the candidates of a flow graph: those of the normalized graph without
/// synthetic parts.
pub open spec fn are_sese_cuts(n: int, root: int, edges: Seq<IEdge>, cuts: Seq<Cut>) -> bool {
    exists|graph: &FlowGraph, found: Seq<RawCandidate>|
        {
            &&& #[trigger] is_flow_graph(graph, n + 2, normalized_edges(n, root, edges))
            &&& #[trigger] is_candidate_list(graph, 0, found)
            &&& cuts == real_cuts(found, n, edges.len() as int, found.len() as int)
        }
}

/// Nodes and boundaries of cuts are in range.
pub open spec fn are_cuts_below(cuts: Seq<Cut>, n: int, m: int) -> bool {
    forall|i: int|
        #![trigger cuts[i]]
        0 <= i < cuts.len() ==> {
            &&& cuts[i].entry < m
            &&& cuts[i].exit < m
            &&& forall|k: int| 0 <= k < cuts[i].nodes.len() ==> #[trigger] cuts[i].nodes[k] < n
        }
}

/// The candidates of a flow graph of `n` nodes.
pub(crate) fn sese_cuts(n: usize, root: usize, edges: &Vec<IEdge>) -> (list: Vec<Candidate>)
    requires
        root < n,
        ends_below(edges@, n as int),
        edges@.len() + n + 2 < usize::MAX,
    ensures
        are_sese_cuts(n as int, root as int, edges@, cuts_of(list@)),
        are_cuts_below(cuts_of(list@), n as int, edges@.len() as int),
{
    let graph = normalize_flow(n, root, edges);
    proof {
        lemma_flow_graph_navigable(
            &graph,
            n + 2,
            normalized_edges(n as int, root as int, edges@),
        );
        assert(graph.spec_nodes().contains(0));
    }
    let found = compute_sese_candidates(&graph, 0);
    let m: usize = edges.len();
    let mut list: Vec<Candidate> = Vec::new();
    assert(cuts_of(list@) =~= Seq::empty());
    for k in 0..found.len()
        invariant
            m == edges@.len(),
            n + 2 < usize::MAX,
            cuts_of(list@) == real_cuts(found@, n as int, m as int, k as int),
            are_cuts_below(cuts_of(list@), n as int, m as int),
    {
        let c = &found[k];
        let ghost before = cuts_of(list@);
        if 1 <= c.entry_edge && c.entry_edge <= m && 1 <= c.exit_edge && c.exit_edge <= m
            && has_inner_nodes(&c.contained_nodes, n) {
            list.push(
                Candidate {
                    entry: c.entry_edge - 1,
                    exit: c.exit_edge - 1,
                    nodes: lower_nodes(&c.contained_nodes, Ghost(n as int)),
                },
            );
            proof {
                let cut = cut_of(list@.last());
                assert(cuts_of(list@) =~= before.push(cut));
                assert forall|i: int| 0 <= i < cut.nodes.len() implies #[trigger] cut.nodes[i]
                    < n by {
                    assert(2 <= c.contained_nodes@[i] < n + 2);
                }
                assert forall|i: int|
                    #![trigger cuts_of(list@)[i]]
                    0 <= i < cuts_of(list@).len() implies {
                    &&& cuts_of(list@)[i].entry < m
                    &&& cuts_of(list@)[i].exit < m
                    &&& forall|k: int|
                        0 <= k < cuts_of(list@)[i].nodes.len()
                            ==> #[trigger] cuts_of(list@)[i].nodes[k] < n
                } by {
                    if i < before.len() {
                        assert(before[i] == cuts_of(list@)[i]);
                    }
                }
            }
        }
    }
    proof {
        assert(is_flow_graph(&graph, n + 2, normalized_edges(n as int, root as int, edges@)));
        assert(is_candidate_list(&graph, 0, found@));
    }
    list
}

// Mixed regions.

/// A candidate with several nodes, strictly inside one of the hammocks.
pub open spec fn is_nested(cut: Cut, hammocks: Seq<DenseHammock>) -> bool {
    &&& cut.nodes.len() > 1
    &&& exists|h: int|
        #![trigger hammocks[h]]
        0 <= h < hammocks.len() && cut.nodes.len() < hammocks[h].nodes@.len() && holds_all(
            hammocks[h].nodes@,
            cut.nodes,
        )
}

/// The candidate crosses none of the chosen ones and equals none.
pub open spec fn joins(cut: Cut, cuts: Seq<Cut>, chosen: Seq<usize>) -> bool {
    forall|i: int|
        #![trigger chosen[i]]
        0 <= i < chosen.len() ==> is_laminar(cut.nodes, cuts[chosen[i] as int].nodes)
            && cuts[chosen[i] as int].nodes != cut.nodes
}

/// The candidates chosen among the first `k`: each that is nested in a hammock and fits
/// together with those chosen before.
pub open spec fn chosen_cuts(cuts: Seq<Cut>, hammocks: Seq<DenseHammock>, k: int) -> Seq<usize>
    decreases k,
{
    if k <= 0 {
        Seq::empty()
    } else {
        let before = chosen_cuts(cuts, hammocks, k - 1);
        if is_nested(cuts[k - 1], hammocks) && joins(cuts[k - 1], cuts, before) {
            before.push((k - 1) as usize)
        } else {
            before
        }
    }
}

/// The order of chosen candidates: the largest first, then by their edges.
pub open spec fn cut_keys(cuts: Seq<Cut>, chosen: Seq<usize>) -> Seq<Key> {
    Seq::new(
        chosen.len(),
        |i: int|
            (
                (usize::MAX - cuts[chosen[i] as int].nodes.len()) as usize,
                cuts[chosen[i] as int].entry,
                cuts[chosen[i] as int].exit,
            ),
    )
}

/// The tree has all nodes, the hammocks below them, and the chosen candidates, each below
/// the smallest earlier region that holds it. A node belongs to the smallest region that
/// holds it.
pub open spec fn is_mixed_tree(
    n: int,
    hammocks: Seq<DenseHammock>,
    cuts: Seq<Cut>,
    order: Seq<usize>,
    tree: RegionTree,
) -> bool {
    let chosen = chosen_cuts(cuts, hammocks, cuts.len() as int);
    let h = hammocks.len() as int;
    &&& is_sorted_order(cut_keys(cuts, chosen), order)
    &&& tree.sets@.len() == 1 + h + chosen.len()
    &&& tree.bounds@.len() == tree.sets@.len()
    &&& tree.parent@.len() == tree.sets@.len()
    &&& tree.children@.len() == tree.sets@.len()
    &&& is_range(tree.sets@[0]@, n)
    &&& tree.bounds@[0] is None
    &&& forall|i: int|
        #![trigger tree.sets@[i]]
        1 <= i <= h ==> {
            &&& tree.sets@[i]@ == hammocks[i - 1].nodes@
            &&& tree.bounds@[i] == Some((hammocks[i - 1].entry_edge, hammocks[i - 1].exit_edge))
            &&& tree.parent@[i] == 0
        }
    &&& forall|i: int|
        #![trigger tree.sets@[i]]
        h < i < tree.sets@.len() ==> {
            let cut = cuts[chosen[order[i - 1 - h] as int] as int];
            &&& tree.sets@[i]@ == cut.nodes
            &&& tree.bounds@[i] == Some((cut.entry, cut.exit))
            &&& first_smallest(
                tree.sets@,
                holders(tree.sets@, tree.sets@[i]@),
                0,
                i,
                tree.parent@[i] as int,
            )
        }
    &&& lists_children(tree.parent@, tree.children@, tree.sets@.len() as int)
    &&& is_ownership(tree.sets@, 0, n, tree.owned@)
}

/// The regions of a layout: maximal hammocks with useful edge regions nested inside them.
/// Without a hammock, the canonical regions are the best structural representation.
pub open spec fn are_layout_regions(n: int, root: int, edges: Seq<IEdge>, tree: RegionTree) -> bool {
    exists|hammocks: Seq<DenseHammock>|
        #[trigger] are_hammocks(n as usize, root as usize, edges, hammocks) && has_hammocks(
            n,
            root,
            edges,
            hammocks,
            tree,
        )
}

/// The tree has these hammocks with useful edge regions nested inside them, or the
/// canonical regions where there is no hammock.
pub open spec fn has_hammocks(
    n: int,
    root: int,
    edges: Seq<IEdge>,
    hammocks: Seq<DenseHammock>,
    tree: RegionTree,
) -> bool {
    if hammocks.len() == 0 {
        are_sese_regions(n, root, edges, tree)
    } else {
        exists|cuts: Seq<Cut>, order: Seq<usize>|
            #[trigger] are_sese_cuts(n, root, edges, cuts) && #[trigger] is_mixed_tree(
                n,
                hammocks,
                cuts,
                order,
                tree,
            )
    }
}

fn inside_a_hammock(nodes: &Vec<usize>, hammocks: &Vec<DenseHammock>) -> (b: bool)
    ensures
        b == exists|h: int|
            #![trigger hammocks@[h]]
            0 <= h < hammocks@.len() && nodes@.len() < hammocks@[h].nodes@.len() && holds_all(
                hammocks@[h].nodes@,
                nodes@,
            ),
{
    for h in 0..hammocks.len()
        invariant
            forall|k: int|
                #![trigger hammocks@[k]]
                0 <= k < h ==> !(nodes@.len() < hammocks@[k].nodes@.len() && holds_all(
                    hammocks@[k].nodes@,
                    nodes@,
                )),
    {
        if nodes.len() < hammocks[h].nodes.len() && list_holds_all(&hammocks[h].nodes, nodes) {
            return true;
        }
    }
    false
}

fn same_list(a: &Vec<usize>, b: &Vec<usize>) -> (same: bool)
    ensures
        same == (a@ == b@),
{
    if a.len() != b.len() {
        return false;
    }
    for i in 0..a.len()
        invariant
            a@.len() == b@.len(),
            forall|k: int| 0 <= k < i ==> #[trigger] a@[k] == b@[k],
    {
        if a[i] != b[i] {
            return false;
        }
    }
    assert(a@ =~= b@);
    true
}

fn joins_chosen(k: usize, list: &Vec<Candidate>, chosen: &Vec<usize>) -> (b: bool)
    requires
        k < list@.len(),
        forall|i: int| 0 <= i < chosen@.len() ==> #[trigger] chosen@[i] < list@.len(),
    ensures
        b == joins(cuts_of(list@)[k as int], cuts_of(list@), chosen@),
{
    let ghost cuts = cuts_of(list@);
    for i in 0..chosen.len()
        invariant
            k < list@.len(),
            cuts == cuts_of(list@),
            forall|i: int| 0 <= i < chosen@.len() ==> #[trigger] chosen@[i] < list@.len(),
            forall|j: int|
                #![trigger chosen@[j]]
                0 <= j < i ==> is_laminar(
                    cuts[k as int].nodes,
                    cuts[chosen@[j] as int].nodes,
                ) && cuts[chosen@[j] as int].nodes != cuts[k as int].nodes,
    {
        assert(chosen@[i as int] < list@.len());
        let other = &list[chosen[i]].nodes;
        assert(cuts[chosen@[i as int] as int].nodes == other@);
        if !lists_laminar(&list[k].nodes, other) || same_list(&list[k].nodes, other) {
            return false;
        }
    }
    true
}

/// Chooses candidates, and sorts them.
fn choose_cuts(list: &Vec<Candidate>, hammocks: &Vec<DenseHammock>) -> (res: (Vec<usize>, Vec<usize>))
    ensures
        ({
            let cuts = cuts_of(list@);
            let chosen = chosen_cuts(cuts, hammocks@, cuts.len() as int);
            &&& res.0@ == chosen
            &&& is_sorted_order(cut_keys(cuts, chosen), res.1@)
            &&& forall|i: int| 0 <= i < chosen.len() ==> #[trigger] chosen[i] < list@.len()
        }),
{
    let ghost cuts = cuts_of(list@);
    let mut chosen: Vec<usize> = Vec::new();
    for k in 0..list.len()
        invariant
            cuts == cuts_of(list@),
            chosen@ == chosen_cuts(cuts, hammocks@, k as int),
            forall|i: int| 0 <= i < chosen@.len() ==> #[trigger] chosen@[i] < list@.len(),
    {
        assert(cuts[k as int].nodes == list@[k as int].nodes@);
        if list[k].nodes.len() > 1 && inside_a_hammock(&list[k].nodes, hammocks) && joins_chosen(
            k,
            list,
            &chosen,
        ) {
            chosen.push(k);
        }
    }
    let mut keys: Vec<Key> = Vec::new();
    for i in 0..chosen.len()
        invariant
            cuts == cuts_of(list@),
            forall|i: int| 0 <= i < chosen@.len() ==> #[trigger] chosen@[i] < list@.len(),
            keys@ == cut_keys(cuts, chosen@).take(i as int),
    {
        assert(chosen@[i as int] < list@.len());
        let c = &list[chosen[i]];
        keys.push((usize::MAX - c.nodes.len(), c.entry, c.exit));
        assert(keys@ =~= cut_keys(cuts, chosen@).take(i + 1));
    }
    assert(keys@ =~= cut_keys(cuts, chosen@));
    let order = sorted_order(&keys);
    (chosen, order)
}

/// Hangs the regions behind the first `fixed` ones below the smallest earlier region that
/// holds them, and those below the outermost one.
fn nest_behind(sets: &Vec<Vec<usize>>, fixed: usize) -> (nesting: (Vec<usize>, Vec<Vec<usize>>))
    requires
        fixed < sets@.len(),
        forall|i: int| 0 <= i < sets@.len() ==> holds_all(sets@[0]@, (#[trigger] sets@[i])@),
    ensures
        nesting.0@.len() == sets@.len(),
        nesting.1@.len() == sets@.len(),
        forall|i: int| 1 <= i <= fixed ==> #[trigger] nesting.0@[i] == 0,
        forall|i: int|
            fixed < i < sets@.len() ==> first_smallest(
                sets@,
                holders(sets@, sets@[i]@),
                0,
                i,
                #[trigger] nesting.0@[i] as int,
            ),
        lists_children(nesting.0@, nesting.1@, sets@.len() as int),
{
    let mut parent: Vec<usize> = Vec::new();
    let mut children: Vec<Vec<usize>> = Vec::new();
    for r in 0..sets.len()
        invariant
            parent@.len() == r,
            children@.len() == r,
            forall|i: int| 0 <= i < r ==> (#[trigger] children@[i])@.len() == 0,
    {
        parent.push(0);
        children.push(Vec::new());
    }
    for i in 1..sets.len()
        invariant
            fixed < sets@.len(),
            forall|i: int| 0 <= i < sets@.len() ==> holds_all(sets@[0]@, (#[trigger] sets@[i])@),
            parent@.len() == sets@.len(),
            children@.len() == sets@.len(),
            forall|k: int| 1 <= k <= fixed && k < i ==> #[trigger] parent@[k] == 0,
            forall|k: int|
                fixed < k < i ==> first_smallest(
                    sets@,
                    holders(sets@, sets@[k]@),
                    0,
                    k,
                    #[trigger] parent@[k] as int,
                ),
            lists_children(parent@, children@, i as int),
    {
        let mut p: usize = 0;
        if i > fixed {
            p = match smallest_holder(sets, i, &sets[i]) {
                Some(p) => p,
                None => {
                    assert(holds_all(sets@[0]@, sets@[i as int]@));
                    assert(holders(sets@, sets@[i as int]@)(0));
                    0
                },
            };
        }
        let ghost before = children@;
        let ghost parent0 = parent@;
        parent.set(i, p);
        children[p].push(i);
        proof {
            assert(lists_children(parent@, before, i as int)) by {
                assert forall|q: int, j: usize| 0 <= q < before.len() implies (
                #[trigger] before[q]@.contains(j) <==> 1 <= j < i && parent@[j as int] == q) by {
                    assert(before[q]@.contains(j) <==> 1 <= j < i && parent0[j as int] == q);
                }
            }
            lemma_push_child(parent@, before, children@, p as int, i);
        }
    }
    (parent, children)
}

/// Region `k` is the hammock of its number.
pub open spec fn is_hammock_region(
    sets: Seq<Vec<usize>>,
    bounds: Seq<Option<(usize, usize)>>,
    hammocks: Seq<DenseHammock>,
    k: int,
) -> bool {
    &&& sets[k]@ == hammocks[k - 1].nodes@
    &&& bounds[k] == Some((hammocks[k - 1].entry_edge, hammocks[k - 1].exit_edge))
}

pub open spec fn lists_hammocks(
    sets: Seq<Vec<usize>>,
    bounds: Seq<Option<(usize, usize)>>,
    hammocks: Seq<DenseHammock>,
    i: int,
) -> bool {
    forall|k: int| 1 <= k <= i ==> #[trigger] is_hammock_region(sets, bounds, hammocks, k)
}

/// Builds the tree of hammocks and chosen candidates.
#[verifier::rlimit(40)]
fn mixed_regions(n: usize, hammocks: &Vec<DenseHammock>, list: &Vec<Candidate>, Ghost(m): Ghost<int>) -> (tree: RegionTree)
    requires
        are_cuts_below(cuts_of(list@), n as int, m),
        forall|i: int, k: int|
            0 <= i < hammocks@.len() && 0 <= k < hammocks@[i].nodes@.len()
                ==> #[trigger] hammocks@[i].nodes@[k] < n,
        forall|i: int|
            #![trigger hammocks@[i]]
            0 <= i < hammocks@.len() ==> hammocks@[i].entry_edge < m && hammocks@[i].exit_edge < m,
    ensures
        exists|order: Seq<usize>|
            #[trigger] is_mixed_tree(n as int, hammocks@, cuts_of(list@), order, tree),
        is_within(tree, n as int, m),
{
    let ghost cuts = cuts_of(list@);
    let (chosen, order) = choose_cuts(list, hammocks);
    let mut sets: Vec<Vec<usize>> = Vec::new();
    let mut bounds: Vec<Option<(usize, usize)>> = Vec::new();
    sets.push(full_range(n));
    bounds.push(None);
    let fixed: usize = hammocks.len();
    for i in 0..fixed
        invariant
            fixed == hammocks@.len(),
            sets@.len() == i + 1,
            bounds@.len() == i + 1,
            is_range(sets@[0]@, n as int),
            bounds@[0] is None,
            lists_hammocks(sets@, bounds@, hammocks@, i as int),
    {
        let ghost sets0 = sets@;
        let ghost bounds0 = bounds@;
        sets.push(copy_list(&hammocks[i].nodes));
        bounds.push(Some((hammocks[i].entry_edge, hammocks[i].exit_edge)));
        assert forall|k: int| 1 <= k <= i + 1 implies #[trigger] is_hammock_region(
            sets@,
            bounds@,
            hammocks@,
            k,
        ) by {
            if k <= i {
                assert(is_hammock_region(sets0, bounds0, hammocks@, k));
            }
        }
    }
    for i in 0..order.len()
        invariant
            fixed == hammocks@.len(),
            cuts == cuts_of(list@),
            is_sorted_order(cut_keys(cuts, chosen@), order@),
            forall|i: int| 0 <= i < chosen@.len() ==> #[trigger] chosen@[i] < list@.len(),
            sets@.len() == i + 1 + fixed,
            bounds@.len() == i + 1 + fixed,
            is_range(sets@[0]@, n as int),
            bounds@[0] is None,
            lists_hammocks(sets@, bounds@, hammocks@, fixed as int),
            forall|k: int|
                #![trigger sets@[k]]
                fixed < k < sets@.len() ==> {
                    let cut = cuts[chosen@[order@[k - 1 - fixed] as int] as int];
                    &&& sets@[k]@ == cut.nodes
                    &&& bounds@[k] == Some((cut.entry, cut.exit))
                },
    {
        assert(order@[i as int] < chosen@.len());
        assert(chosen@[order@[i as int] as int] < list@.len());
        let c = &list[chosen[order[i]]];
        assert(cuts[chosen@[order@[i as int] as int] as int] == cut_of(*c));
        let ghost sets0 = sets@;
        let ghost bounds0 = bounds@;
        sets.push(copy_list(&c.nodes));
        bounds.push(Some((c.entry, c.exit)));
        proof {
            assert forall|k: int| 1 <= k <= fixed implies #[trigger] is_hammock_region(
                sets@,
                bounds@,
                hammocks@,
                k,
            ) by {
                assert(is_hammock_region(sets0, bounds0, hammocks@, k));
            }
            assert forall|k: int|
                #![trigger sets@[k]]
                fixed < k < sets@.len() implies {
                let cut = cuts[chosen@[order@[k - 1 - fixed] as int] as int];
                &&& sets@[k]@ == cut.nodes
                &&& bounds@[k] == Some((cut.entry, cut.exit))
            } by {
                if k < sets0.len() {
                    assert(sets@[k] == sets0[k] && bounds@[k] == bounds0[k]);
                }
            }
        }
    }
    proof {
        assert forall|i: int| 0 <= i < sets@.len() implies holds_all(
            sets@[0]@,
            (#[trigger] sets@[i])@,
        ) by {
            assert forall|k: int| 0 <= k < sets@[i]@.len() implies sets@[0]@.contains(
                #[trigger] sets@[i]@[k],
            ) by {
                let x = sets@[i]@[k];
                if 1 <= i <= fixed {
                    assert(is_hammock_region(sets@, bounds@, hammocks@, i));
                    assert(hammocks@[i - 1].nodes@[k] < n);
                } else if i > fixed {
                    let at = chosen@[order@[i - 1 - fixed] as int] as int;
                    assert(order@[i - 1 - fixed] < chosen@.len());
                    assert(cuts[at].nodes[k] < n);
                }
                assert(sets@[0]@[x as int] == x);
            }
        }
    }
    let (parent, children) = nest_behind(&sets, fixed);
    let owned = assign_owners(&sets, 0, n);
    let tree = RegionTree { sets, parent, children, owned, bounds };
    proof {
        assert forall|i: int|
            #![trigger tree.sets@[i]]
            1 <= i <= fixed implies {
            &&& tree.sets@[i]@ == hammocks@[i - 1].nodes@
            &&& tree.bounds@[i] == Some((hammocks@[i - 1].entry_edge, hammocks@[i - 1].exit_edge))
            &&& tree.parent@[i] == 0
        } by {
            assert(is_hammock_region(sets@, bounds@, hammocks@, i));
        }
        assert forall|i: int|
            #![trigger tree.sets@[i]]
            fixed < i < tree.sets@.len() implies first_smallest(
            tree.sets@,
            holders(tree.sets@, tree.sets@[i]@),
            0,
            i,
            tree.parent@[i] as int,
        ) by {
            assert(tree.parent@[i] == parent@[i]);
        }
    }
    assert(is_mixed_tree(n as int, hammocks@, cuts, order@, tree));
    proof {
        assert forall|i: int|
            #![trigger tree.sets@[i]]
            0 <= i < tree.sets@.len() implies is_below(tree.sets@[i]@, n as int) && is_below(
            tree.owned@[i]@,
            n as int,
        ) by {
            lemma_owned_below(tree, 0, n as int, i);
            assert forall|k: int| 0 <= k < tree.sets@[i]@.len() implies #[trigger] tree.sets@[i]@[k]
                < n by {
                assert(holds_all(sets@[0]@, sets@[i]@));
                assert(sets@[0]@.contains(sets@[i]@[k]));
            }
        }
        assert forall|i: int|
            #![trigger tree.bounds@[i]]
            1 <= i < tree.sets@.len() implies (tree.bounds@[i] matches Some(b) && b.0 < m && b.1
            < m) by {
            assert(tree.sets@[i]@.len() >= 0);
            if i > fixed {
                let at = chosen@[order@[i - 1 - fixed] as int] as int;
                assert(order@[i - 1 - fixed] < chosen@.len());
                assert(cuts[at].entry < m);
            } else {
                assert(hammocks@[i - 1].entry_edge < m);
            }
        }
    }
    tree
}

/// The regions that the layout of a flow graph of `n` nodes is composed of.
pub fn layout_regions(n: usize, root: usize, edges: &Vec<IEdge>) -> (tree: RegionTree)
    requires
        root < n,
        ends_below(edges@, n as int),
        edges@.len() + n + 2 < usize::MAX,
        n < usize::MAX / 32,
    ensures
        are_layout_regions(n as int, root as int, edges@, tree),
        is_within(tree, n as int, edges@.len() as int),
{
    let hammocks = dense_hammocks(n, root, edges);
    proof {
        assert forall|i: int, k: int|
            0 <= i < hammocks@.len() && 0 <= k < hammocks@[i].nodes@.len() implies #[trigger] hammocks@[i].nodes@[k]
            < n by {
            lemma_nodes_below(n, root, edges@, hammocks@, i);
        }
        law_hammocks_have_boundaries(n, root, edges@, hammocks@);
    }
    let tree = regions_with(n, root, edges, &hammocks);
    proof {
        assert((n as int) as usize == n && (root as int) as usize == root);
        assert(are_hammocks((n as int) as usize, (root as int) as usize, edges@, hammocks@));
    }
    tree
}

/// The regions with these hammocks, or the canonical regions where there is none.
fn regions_with(n: usize, root: usize, edges: &Vec<IEdge>, hammocks: &Vec<DenseHammock>) -> (tree: RegionTree)
    requires
        root < n,
        ends_below(edges@, n as int),
        edges@.len() + n + 2 < usize::MAX,
        forall|i: int, k: int|
            0 <= i < hammocks@.len() && 0 <= k < hammocks@[i].nodes@.len()
                ==> #[trigger] hammocks@[i].nodes@[k] < n,
        forall|i: int|
            #![trigger hammocks@[i]]
            0 <= i < hammocks@.len() ==> hammocks@[i].entry_edge < edges@.len()
                && hammocks@[i].exit_edge < edges@.len(),
    ensures
        has_hammocks(n as int, root as int, edges@, hammocks@, tree),
        is_within(tree, n as int, edges@.len() as int),
{
    if hammocks.len() == 0 {
        return sese_regions(n, root, edges);
    }
    let list = sese_cuts(n, root, edges);
    let tree = mixed_regions(n, hammocks, &list, Ghost(edges@.len() as int));
    proof {
        let order = choose|order: Seq<usize>|
            #[trigger] is_mixed_tree(n as int, hammocks@, cuts_of(list@), order, tree);
        assert(are_sese_cuts(n as int, root as int, edges@, cuts_of(list@)));
        assert(is_mixed_tree(n as int, hammocks@, cuts_of(list@), order, tree));
    }
    tree
}

// Regions of a graph.

/// `named` is `tree` with identifiers in the place of numbers.
pub open spec fn names_tree<N, E>(
    ids: Seq<N>,
    originals: Seq<E>,
    tree: RegionTree,
    named: SeseTree<N, E>,
) -> bool {
    &&& named.regions@.len() == tree.sets@.len()
    &&& forall|r: int|
        #![trigger named.regions@[r]]
        0 <= r < named.regions@.len() ==> {
            let region = named.regions@[r];
            &&& region.parent == if r == 0 {
                None
            } else {
                Some(tree.parent@[r])
            }
            &&& region.children@ == tree.children@[r]@
            &&& region.nodes@ == picked(ids, tree.owned@[r]@)
            &&& region.contained_nodes@ == picked(ids, tree.sets@[r]@)
            &&& match tree.bounds@[r] {
                Some(b) => region.entry_edge == Some(originals[b.0 as int]) && region.exit_edge
                    == Some(originals[b.1 as int]),
                None => region.entry_edge is None && region.exit_edge is None,
            }
        }
}

fn name_tree<N: Copy, E: Copy>(ids: &Vec<N>, originals: &Vec<E>, tree: &RegionTree) -> (named: SeseTree<N, E>)
    requires
        is_within(*tree, ids@.len() as int, originals@.len() as int),
    ensures
        names_tree(ids@, originals@, *tree, named),
{
    let mut regions: Vec<SeseRegion<N, E>> = Vec::new();
    for r in 0..tree.sets.len()
        invariant
            is_within(*tree, ids@.len() as int, originals@.len() as int),
            regions@.len() == r,
            forall|q: int|
                #![trigger regions@[q]]
                0 <= q < r ==> {
                    let region = regions@[q];
                    &&& region.parent == if q == 0 {
                        None
                    } else {
                        Some(tree.parent@[q])
                    }
                    &&& region.children@ == tree.children@[q]@
                    &&& region.nodes@ == picked(ids@, tree.owned@[q]@)
                    &&& region.contained_nodes@ == picked(ids@, tree.sets@[q]@)
                    &&& match tree.bounds@[q] {
                        Some(b) => region.entry_edge == Some(originals@[b.0 as int])
                            && region.exit_edge == Some(originals@[b.1 as int]),
                        None => region.entry_edge is None && region.exit_edge is None,
                    }
                },
    {
        proof {
            assert(is_below(tree.sets@[r as int]@, ids@.len() as int));
            assert(tree.bounds@[r as int] matches Some(b) ==> b.0 < originals@.len() && b.1
                < originals@.len());
        }
        let edges: (Option<E>, Option<E>) = match tree.bounds[r] {
            Some(b) => (Some(originals[b.0]), Some(originals[b.1])),
            None => (None, None),
        };
        regions.push(
            SeseRegion {
                parent: if r == 0 {
                    None
                } else {
                    Some(tree.parent[r])
                },
                children: copy_list(&tree.children[r]),
                entry_edge: edges.0,
                exit_edge: edges.1,
                nodes: pick(ids, &tree.owned[r]),
                contained_nodes: pick(ids, &tree.sets[r]),
            },
        );
    }
    SeseTree { regions }
}

/// `tree` holds the canonical regions of a part of a graph, entered at `root`. Nodes come in
/// the order of `component`.
pub open spec fn is_normalized_tree<G: Graph>(
    graph: &G,
    component: Seq<G::NodeId>,
    root: G::NodeId,
    tree: SeseTree<G::NodeId, G::EdgeId>,
) -> bool {
    exists|part: Part<G::NodeId, G::EdgeId>, dense: RegionTree|
        {
            &&& #[trigger] part.lists(graph, component, root)
            &&& #[trigger] are_sese_regions(
                part.ids@.len() as int,
                part.root as int,
                part.edges@,
                dense,
            )
            &&& names_tree(part.ids@, part.originals@, dense, tree)
        }
}

/// `moved` are the hammocks `found`, over the positions of their nodes in `to` in the place
/// of those in `from`.
pub open spec fn are_moved<N>(
    from: Seq<N>,
    to: Seq<N>,
    found: Seq<DenseHammock>,
    moved: Seq<DenseHammock>,
) -> bool {
    &&& moved.len() == found.len()
    &&& forall|i: int|
        #![trigger moved[i]]
        #![trigger found[i]]
        0 <= i < moved.len() ==> {
            &&& is_below(moved[i].nodes@, to.len() as int)
            &&& picked(to, moved[i].nodes@) == picked(from, found[i].nodes@)
            &&& moved[i].entry_edge == found[i].entry_edge
            &&& moved[i].exit_edge == found[i].exit_edge
        }
}

/// `tree` holds the regions that the layout of a part of a graph is composed of. Hammocks
/// are those of its nodes in the order of their indices, and list their nodes so; all else
/// follows the order of `component`.
pub open spec fn is_layout_tree<G: Graph>(
    graph: &G,
    component: Seq<G::NodeId>,
    root: G::NodeId,
    tree: SeseTree<G::NodeId, G::EdgeId>,
) -> bool {
    exists|
        part: Part<G::NodeId, G::EdgeId>,
        sorted: Part<G::NodeId, G::EdgeId>,
        found: Seq<DenseHammock>,
        moved: Seq<DenseHammock>,
        dense: RegionTree,
    |
        {
            &&& #[trigger] part.lists(graph, component, root)
            &&& #[trigger] sorted.represents(graph, component, root)
            &&& are_hammocks(sorted.ids@.len() as usize, sorted.root, sorted.edges@, found)
            &&& #[trigger] are_moved(sorted.ids@, part.ids@, found, moved)
            &&& has_hammocks(
                part.ids@.len() as int,
                part.root as int,
                part.edges@,
                moved,
                dense,
            )
            &&& #[trigger] names_tree(part.ids@, part.originals@, dense, tree)
        }
}

/// `found` are the raw edge regions of a part of a graph, without synthetic parts. Nodes
/// come in the order of `component`.
pub open spec fn is_normalized_list<G: Graph>(
    graph: &G,
    component: Seq<G::NodeId>,
    root: G::NodeId,
    found: Seq<SeseCandidate<G::NodeId, G::EdgeId>>,
) -> bool {
    exists|part: Part<G::NodeId, G::EdgeId>, cuts: Seq<Cut>|
        {
            &&& #[trigger] part.lists(graph, component, root)
            &&& #[trigger] are_sese_cuts(
                part.ids@.len() as int,
                part.root as int,
                part.edges@,
                cuts,
            )
            &&& found.len() == cuts.len()
            &&& forall|i: int|
                #![trigger found[i]]
                0 <= i < found.len() ==> {
                    &&& found[i].contained_nodes@ == picked(part.ids@, cuts[i].nodes)
                    &&& found[i].entry_edge == part.originals@[cuts[i].entry as int]
                    &&& found[i].exit_edge == part.originals@[cuts[i].exit as int]
                }
        }
}

/// The ends of the edges of a part are positions in it.
proof fn lemma_part_ends<G: Graph>(
    graph: &G,
    root: G::NodeId,
    part: Part<G::NodeId, G::EdgeId>,
)
    requires
        part.connects(graph, root),
    ensures
        ends_below(part.edges@, part.ids@.len() as int),
        part.originals@.len() == part.edges@.len(),
{
    assert forall|i: int|
        #![trigger part.edges@[i]]
        0 <= i < part.edges@.len() implies part.edges@[i].from < part.ids@.len()
        && part.edges@[i].to < part.ids@.len() by {}
}

/// The part has no more edges than the graph.
proof fn lemma_part_size<G: Graph>(graph: &G, ids: Seq<G::NodeId>, list: Seq<G::EdgeId>)
    ensures
        edges_within(graph, ids, list).len() <= list.len(),
    decreases list.len(),
{
    if list.len() > 0 {
        lemma_part_size(graph, ids, list.drop_last());
    }
}

/// Enumerates the raw edge regions on the same explicitly normalized flow graph that is
/// used by [`compute_sese_normalized`].
pub fn compute_sese_candidates_normalized<G: Graph>(
    graph: &G,
    component: &Vec<G::NodeId>,
    root: G::NodeId,
) -> (found: Vec<SeseCandidate<G::NodeId, G::EdgeId>>)
    requires
        graph.is_intact(),
        component@.no_duplicates(),
        component@.contains(root),
        graph.spec_edges().len() + component@.len() + 2 < usize::MAX,
    ensures
        is_normalized_list(graph, component@, root, found@),
{
    let part = listed_part(graph, component, root);
    proof {
        lemma_part_ends(graph, root, part);
        lemma_part_size(graph, part.ids@, graph.spec_edges());
    }
    let list = sese_cuts(part.ids.len(), part.root, &part.edges);
    let ghost cuts = cuts_of(list@);
    let mut found: Vec<SeseCandidate<G::NodeId, G::EdgeId>> = Vec::new();
    for i in 0..list.len()
        invariant
            cuts == cuts_of(list@),
            part.originals@.len() == part.edges@.len(),
            are_cuts_below(cuts, part.ids@.len() as int, part.edges@.len() as int),
            found@.len() == i,
            forall|k: int|
                #![trigger found@[k]]
                0 <= k < i ==> {
                    &&& found@[k].contained_nodes@ == picked(part.ids@, cuts[k].nodes)
                    &&& found@[k].entry_edge == part.originals@[cuts[k].entry as int]
                    &&& found@[k].exit_edge == part.originals@[cuts[k].exit as int]
                },
    {
        let c = &list[i];
        assert(cuts[i as int] == cut_of(*c));
        assert forall|k: int| 0 <= k < c.nodes@.len() implies #[trigger] c.nodes@[k]
            < part.ids@.len() by {
            assert(cuts[i as int].nodes[k] < part.ids@.len());
        }
        found.push(
            SeseCandidate {
                contained_nodes: pick(&part.ids, &c.nodes),
                entry_edge: part.originals[c.entry],
                exit_edge: part.originals[c.exit],
            },
        );
    }
    proof {
        assert(part.lists(graph, component@, root));
        assert(are_sese_cuts(part.ids@.len() as int, part.root as int, part.edges@, cuts));
    }
    found
}

/// Computes regions on a flow graph normalized into one explicit hammock.
pub fn compute_sese_normalized<G: Graph>(
    graph: &G,
    component: &Vec<G::NodeId>,
    root: G::NodeId,
) -> (tree: SeseTree<G::NodeId, G::EdgeId>)
    requires
        graph.is_intact(),
        component@.no_duplicates(),
        component@.contains(root),
        graph.spec_edges().len() + component@.len() + 2 < usize::MAX,
    ensures
        is_normalized_tree(graph, component@, root, tree),
{
    let part = listed_part(graph, component, root);
    proof {
        lemma_part_ends(graph, root, part);
        lemma_part_size(graph, part.ids@, graph.spec_edges());
    }
    let dense = sese_regions(part.ids.len(), part.root, &part.edges);
    let tree = name_tree(&part.ids, &part.originals, &dense);
    proof {
        assert(part.lists(graph, component@, root));
        assert(are_sese_regions(part.ids@.len() as int, part.root as int, part.edges@, dense));
    }
    tree
}

/// The region tree of a layout retains maximal node hammocks and useful raw edge regions
/// nested inside them. This deliberately does not alter the canonical selection rule of
/// `compute_sese`.
pub fn compute_layout_sese_tree<G: Graph>(
    graph: &G,
    component: &Vec<G::NodeId>,
    root: G::NodeId,
) -> (tree: SeseTree<G::NodeId, G::EdgeId>)
    requires
        graph.is_intact(),
        component@.no_duplicates(),
        component@.contains(root),
        component@.len() < usize::MAX / 32,
        graph.spec_edges().len() + component@.len() + 2 < usize::MAX,
    ensures
        is_layout_tree(graph, component@, root, tree),
{
    let sorted = part_of(graph, component, root);
    let part = listed_part(graph, component, root);
    proof {
        lemma_part_ends(graph, root, part);
        lemma_part_ends(graph, root, sorted);
        lemma_part_size(graph, part.ids@, graph.spec_edges());
        lemma_same_edges(graph, part.ids@, sorted.ids@, graph.spec_edges());
    }
    let found = dense_hammocks(sorted.ids.len(), sorted.root, &sorted.edges);
    proof {
        law_hammocks_have_boundaries(
            sorted.ids@.len() as usize,
            sorted.root,
            sorted.edges@,
            found@,
        );
        assert forall|i: int| 0 <= i < found@.len() implies is_below(
            (#[trigger] found@[i]).nodes@,
            sorted.ids@.len() as int,
        ) by {
            lemma_nodes_below(
                sorted.ids@.len() as usize,
                sorted.root,
                sorted.edges@,
                found@,
                i,
            );
        }
    }
    let moved = move_hammocks(&sorted.ids, &part.ids, &found);
    proof {
        assert forall|i: int, k: int|
            0 <= i < moved@.len() && 0 <= k < moved@[i].nodes@.len() implies #[trigger] moved@[i].nodes@[k]
            < part.ids@.len() by {
            assert(is_below(moved@[i].nodes@, part.ids@.len() as int));
        }
        assert forall|i: int|
            #![trigger moved@[i]]
            0 <= i < moved@.len() implies moved@[i].entry_edge < part.edges@.len()
            && moved@[i].exit_edge < part.edges@.len() by {
            assert(moved@[i].entry_edge == found@[i].entry_edge);
        }
    }
    let dense = regions_with(part.ids.len(), part.root, &part.edges, &moved);
    let tree = name_tree(&part.ids, &part.originals, &dense);
    proof {
        assert(part.lists(graph, component@, root));
        assert(sorted.represents(graph, component@, root));
        assert(are_moved(sorted.ids@, part.ids@, found@, moved@));
        assert(names_tree(part.ids@, part.originals@, dense, tree));
    }
    tree
}

/// Lists of the same nodes have the same edges between them.
proof fn lemma_same_edges<G: Graph>(
    graph: &G,
    a: Seq<G::NodeId>,
    b: Seq<G::NodeId>,
    list: Seq<G::EdgeId>,
)
    requires
        forall|n: G::NodeId| #[trigger] a.contains(n) <==> b.contains(n),
    ensures
        edges_within(graph, a, list) == edges_within(graph, b, list),
    decreases list.len(),
{
    if list.len() > 0 {
        lemma_same_edges(graph, a, b, list.drop_last());
    }
}

/// The hammocks over positions in another list of the same nodes.
fn move_hammocks<N: Identifier>(from: &Vec<N>, to: &Vec<N>, found: &Vec<DenseHammock>) -> (moved: Vec<
    DenseHammock,
>)
    requires
        to@.no_duplicates(),
        forall|n: N| #[trigger] from@.contains(n) ==> to@.contains(n),
        forall|i: int|
            0 <= i < found@.len() ==> is_below((#[trigger] found@[i]).nodes@, from@.len() as int),
    ensures
        are_moved(from@, to@, found@, moved@),
{
    let index = index_ids(to);
    let mut moved: Vec<DenseHammock> = Vec::new();
    for i in 0..found.len()
        invariant
            numbers_list(index@, to@),
            forall|n: N| #[trigger] from@.contains(n) ==> to@.contains(n),
            forall|i: int|
                0 <= i < found@.len() ==> is_below(
                    (#[trigger] found@[i]).nodes@,
                    from@.len() as int,
                ),
            are_moved(from@, to@, found@.take(i as int), moved@),
    {
        let one = &found[i];
        let ghost before = moved@;
        let mut nodes: Vec<usize> = Vec::new();
        assert(is_below(found@[i as int].nodes@, from@.len() as int));
        for k in 0..one.nodes.len()
            invariant
                *one == found@[i as int],
                is_below(one.nodes@, from@.len() as int),
                numbers_list(index@, to@),
                forall|n: N| #[trigger] from@.contains(n) ==> to@.contains(n),
                nodes@.len() == k,
                is_below(nodes@, to@.len() as int),
                forall|j: int|
                    0 <= j < k ==> to@[#[trigger] nodes@[j] as int] == from@[one.nodes@[j] as int],
        {
            let v: usize = one.nodes[k];
            assert(one.nodes@[k as int] < from@.len());
            assert(from@.contains(from@[v as int]));
            let at: usize = position(&index, Ghost(to@), from[v]).unwrap();
            nodes.push(at);
        }
        assert(picked(to@, nodes@) =~= picked(from@, one.nodes@));
        moved.push(
            DenseHammock { nodes, entry_edge: one.entry_edge, exit_edge: one.exit_edge },
        );
        proof {
            let (some, more) = (found@.take(i as int), found@.take(i + 1));
            assert forall|j: int|
                #![trigger moved@[j]]
                #![trigger more[j]]
                0 <= j < moved@.len() implies {
                &&& is_below(moved@[j].nodes@, to@.len() as int)
                &&& picked(to@, moved@[j].nodes@) == picked(from@, more[j].nodes@)
                &&& moved@[j].entry_edge == more[j].entry_edge
                &&& moved@[j].exit_edge == more[j].exit_edge
            } by {
                if j < i {
                    assert(moved@[j] == before[j]);
                    assert(more[j] == some[j]);
                }
            }
        }
    }
    assert(found@.take(found@.len() as int) =~= found@);
    moved
}

/// Whether composing a layout of regions is worth while: some region but the outermost
/// holds several nodes, and the outermost holds them all.
pub fn has_useful_region(tree: &RegionTree, size: usize) -> (useful: bool)
    requires
        tree.sets@.len() > 0,
    ensures
        useful == ((exists|r: int|
            #![trigger tree.sets@[r]]
            1 <= r < tree.sets@.len() && tree.sets@[r]@.len() > 1)
            && tree.sets@[0]@.len() == size),
{
    let mut found: bool = false;
    for r in 1..tree.sets.len()
        invariant
            tree.sets@.len() > 0,
            found == exists|q: int|
                #![trigger tree.sets@[q]]
                1 <= q < r && tree.sets@[q]@.len() > 1,
    {
        if tree.sets[r].len() > 1 {
            found = true;
        }
    }
    found && tree.sets[0].len() == size
}

} // verus!
