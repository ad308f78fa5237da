//! Dominator-based detection of maximal Ferrante hammocks.
//!
//! A hammock is an induced node region with one entry node and one external
//! exit node.  Every outside edge entering the region targets the entry, and
//! every edge leaving it targets the exit.  For an entry `e`, dominance limits
//! every such region to either `D(e)` or `D(e) - D(x)`, where `D(v)` are the nodes
//! that `v` dominates.  All boundary edges of dominator subtrees are summarized in
//! one pass over the graph, and at most one maximal candidate is made per entry.
use crate::graph::adjacency::Adjacency;
use crate::graph::analysis::dominator::compute_dominators;
use crate::graph::analysis::sese::{
    arcs, edges_between, ends_below, pick, picked, reachable, sort_ids, IEdge,
};
use crate::graph::walk::{
    dominates, immediately_dominates, lemma_dominance_reflexive, lemma_dominance_transitive,
    lemma_strict_dominates_pred, lemma_trivial_walk, reaches, step_at, strictly_dominates,
    walk_between,
};
use crate::graph::analysis::nesting::is_increasing;
use crate::graph::{flow, Cfg, Graph};
use crate::indexing::{index_ids, numbers_list, position};
use crate::registry::Identifier;
use crate::sorting::{is_sorted_order, sorted_order, Key};
use crate::triskel::hammock_search::{deepest_good, is_good, MinTree};
use crate::triskel::hammock_tags::{
    edges_in_tree, is_lca_of_sources, leaving_subtree, lemma_lca_of, lower_depth_of,
    summarize_subtrees, summarizes, Tag, Target,
};
use crate::triskel::tree_index::{
    build_tree_index, lemma_above_depth, lemma_above_transitive, lemma_parent_above,
    lemma_root_above, TreeIndex,
};
use vstd::prelude::*;

verus! {

/// No edge but a loop leaves `v`.
pub open spec fn is_sink(edges: Seq<IEdge>, v: int) -> bool {
    forall|j: int|
        #![trigger edges[j]]
        0 <= j < edges.len() && edges[j].from == v ==> edges[j].to == v
}

/// The sinks among the first `v` nodes.
pub open spec fn sinks_below(edges: Seq<IEdge>, v: nat) -> Seq<usize>
    decreases v,
{
    if v == 0 {
        Seq::empty()
    } else {
        let rest = sinks_below(edges, (v - 1) as nat);
        if is_sink(edges, v - 1) {
            rest.push((v - 1) as usize)
        } else {
            rest
        }
    }
}

/// The edges with one more from each of `sinks` to the node `exit`.
pub open spec fn with_exit(edges: Seq<IEdge>, sinks: Seq<usize>, exit: usize) -> Seq<IEdge> {
    edges + sinks.map_values(|v: usize| IEdge { from: v, to: exit })
}

/// A graph with one sink: where there are several, they lead to one more node.
pub struct OneSink {
    pub count: usize,
    pub sink: usize,
    pub edges: Vec<IEdge>,
}

impl OneSink {
    /// Made from the nodes `0..original` and `edges`, which have a sink.
    pub open spec fn is_made_from(&self, original: usize, edges: Seq<IEdge>) -> bool {
        let sinks = sinks_below(edges, original as nat);
        if sinks.len() == 1 {
            &&& self.count == original
            &&& self.sink == sinks[0]
            &&& self.edges@ == edges
        } else {
            &&& sinks.len() > 1
            &&& self.count == original + 1
            &&& self.sink == original
            &&& self.edges@ == with_exit(edges, sinks, original)
        }
    }

}

pub open spec fn has_edge(edges: Seq<IEdge>, a: usize, b: usize) -> bool {
    exists|j: int| 0 <= j < edges.len() && #[trigger] edges[j] == (IEdge { from: a, to: b })
}

/// The steps over the edges.
pub open spec fn edge_steps(edges: Seq<IEdge>) -> spec_fn(usize, usize) -> bool {
    |a: usize, b: usize| has_edge(edges, a, b)
}

proof fn lemma_sinks_below(edges: Seq<IEdge>, v: nat)
    requires
        v <= usize::MAX,
    ensures
        forall|i: int| 0 <= i < sinks_below(edges, v).len() ==> #[trigger] sinks_below(edges, v)[i] < v,
    decreases v,
{
    if v > 0 {
        lemma_sinks_below(edges, (v - 1) as nat);
        let rest = sinks_below(edges, (v - 1) as nat);
        assert forall|i: int| 0 <= i < sinks_below(edges, v).len() implies #[trigger] sinks_below(
            edges,
            v,
        )[i] < v by {
            if i < rest.len() {
                assert(rest[i] < v - 1);
            }
        }
    }
}

/// Joins the sinks of a graph; `None` if there is none.
#[verifier::rlimit(40)]
fn join_sinks(original: usize, edges: &Vec<IEdge>) -> (joined: Option<OneSink>)
    requires
        ends_below(edges@, original as int),
        original < usize::MAX,
    ensures
        match joined {
            Some(joined) => joined.is_made_from(original, edges@) && ends_below(
                joined.edges@,
                joined.count as int,
            ) && joined.sink < joined.count && edges@.len() <= joined.edges@.len() && (forall|j: int|
                0 <= j < edges@.len() ==> #[trigger] joined.edges@[j] == edges@[j]),
            None => sinks_below(edges@, original as nat).len() == 0,
        },
{
    let mut leads_out: Vec<bool> = Vec::new();
    for v in 0..original
        invariant
            leads_out@.len() == v,
            forall|x: int| 0 <= x < v ==> !#[trigger] leads_out@[x],
    {
        leads_out.push(false);
    }
    for j in 0..edges.len()
        invariant
            ends_below(edges@, original as int),
            leads_out@.len() == original,
            forall|x: int|
                0 <= x < original ==> (#[trigger] leads_out@[x] <==> !is_sink(
                    edges@.subrange(0, j as int),
                    x,
                )),
    {
        let edge = edges[j];
        assert(edges@[j as int].from < original);
        if edge.from != edge.to {
            leads_out.set(edge.from, true);
        }
        proof {
            let (a, b) = (edges@.subrange(0, j as int), edges@.subrange(0, j + 1));
            assert forall|x: int| 0 <= x < original implies (#[trigger] leads_out@[x] <==> !is_sink(
                b,
                x,
            )) by {
                if is_sink(b, x) {
                    assert(b[j as int] == edge);
                    assert forall|k: int|
                        #![trigger a[k]]
                        0 <= k < a.len() && a[k].from == x implies a[k].to == x by {
                        assert(b[k] == a[k]);
                    }
                } else {
                    if is_sink(a, x) && !(edge.from != edge.to && edge.from == x) {
                        assert forall|k: int|
                            #![trigger b[k]]
                            0 <= k < b.len() && b[k].from == x implies b[k].to == x by {
                            if k < j {
                                assert(a[k] == b[k]);
                            }
                        }
                    }
                }
            }
        }
    }
    assert(edges@.subrange(0, edges@.len() as int) =~= edges@);
    let mut sinks: Vec<usize> = Vec::new();
    for v in 0..original
        invariant
            leads_out@.len() == original,
            forall|x: int| 0 <= x < original ==> (#[trigger] leads_out@[x] <==> !is_sink(edges@, x)),
            sinks@ == sinks_below(edges@, v as nat),
    {
        if !leads_out[v] {
            sinks.push(v);
        }
    }
    proof {
        lemma_sinks_below(edges@, original as nat);
    }
    if sinks.len() == 0 {
        return None;
    }
    let mut all: Vec<IEdge> = Vec::new();
    for j in 0..edges.len()
        invariant
            all@ == edges@.subrange(0, j as int),
    {
        all.push(edges[j]);
        assert(all@ =~= edges@.subrange(0, j + 1));
    }
    assert(all@ =~= edges@);
    if sinks.len() == 1 {
        return Some(OneSink { count: original, sink: sinks[0], edges: all });
    }
    for i in 0..sinks.len()
        invariant
            all@ == with_exit(edges@, sinks@.subrange(0, i as int), original),
    {
        all.push(IEdge { from: sinks[i], to: original });
        assert(all@ =~= with_exit(edges@, sinks@.subrange(0, i + 1), original));
    }
    proof {
        assert(sinks@.subrange(0, sinks@.len() as int) =~= sinks@);
        assert forall|j: int| #![trigger all@[j]] 0 <= j < all@.len() implies all@[j].from < original + 1
            && all@[j].to < original + 1 by {
            if j < edges@.len() {
                assert(edges@[j].from < original);
            } else {
                assert(sinks@[j - edges@.len()] < original);
            }
        }
    }
    Some(OneSink { count: original + 1, sink: original, edges: all })
}

/// The successor lists of a graph.
fn adjacency_of(n: usize, edges: &Vec<IEdge>) -> (adjacency: Adjacency)
    requires
        ends_below(edges@, n as int),
    ensures
        adjacency.succ@.len() == n,
        forall|a: usize, b: usize| #[trigger]
            flow(&adjacency)(a, b) <==> has_edge(edges@, a, b),
{
    let mut succ: Vec<Vec<usize>> = Vec::new();
    for v in 0..n
        invariant
            succ@.len() == v,
            forall|x: int| 0 <= x < v ==> (#[trigger] succ@[x])@.len() == 0,
    {
        succ.push(Vec::new());
    }
    for j in 0..edges.len()
        invariant
            ends_below(edges@, n as int),
            succ@.len() == n,
            forall|a: usize, b: usize|
                a < n ==> (#[trigger] succ@[a as int]@.contains(b) <==> has_edge(
                    edges@.subrange(0, j as int),
                    a,
                    b,
                )),
    {
        let edge = edges[j];
        assert(edges@[j as int].from < n);
        let ghost before = succ@;
        succ[edge.from].push(edge.to);
        proof {
            let (s, t) = (edges@.subrange(0, j as int), edges@.subrange(0, j + 1));
            assert(t[j as int] == edge);
            assert forall|a: usize, b: usize| a < n implies (#[trigger] succ@[a as int]@.contains(b)
                <==> has_edge(t, a, b)) by {
                let list = before[a as int]@;
                assert(list.contains(b) <==> has_edge(s, a, b));
                if has_edge(t, a, b) {
                    let k = choose|k: int|
                        0 <= k < t.len() && #[trigger] t[k] == (IEdge { from: a, to: b });
                    if k < j {
                        assert(s[k] == t[k]);
                        assert(succ@[a as int]@[list.index_of(b)] == b);
                    } else {
                        assert(succ@[a as int]@[list.len() as int] == b);
                    }
                }
                if has_edge(s, a, b) {
                    let k = choose|k: int|
                        0 <= k < s.len() && #[trigger] s[k] == (IEdge { from: a, to: b });
                    assert(t[k] == s[k]);
                }
                if succ@[a as int]@.contains(b) && !list.contains(b) {
                    let k = succ@[a as int]@.index_of(b);
                    if k < list.len() {
                        assert(list[k] == b);
                    }
                    assert(t[j as int] == (IEdge { from: a, to: b }));
                }
            }
        }
    }
    let adjacency = Adjacency { succ };
    proof {
        assert(edges@.subrange(0, edges@.len() as int) =~= edges@);
        assert forall|a: usize, b: usize| #[trigger] flow(&adjacency)(a, b) <==> has_edge(
            edges@,
            a,
            b,
        ) by {
            if has_edge(edges@, a, b) {
                let k = choose|k: int|
                    0 <= k < edges@.len() && #[trigger] edges@[k] == (IEdge { from: a, to: b });
                assert(edges@[k].from < n);
            }
            if a < n {
                assert(adjacency.succ@[a as int]@.contains(b) <==> has_edge(edges@, a, b));
            }
        }
    }
    adjacency
}

/// `tree` is the dominator tree of the nodes `0..n` with the steps `e`.
pub open spec fn is_dominator_index(
    tree: TreeIndex,
    e: spec_fn(usize, usize) -> bool,
    root: usize,
    n: usize,
) -> bool {
    &&& tree.wf(root as int)
    &&& tree.count() == n
    &&& forall|a: usize, b: usize|
        a < n && b < n ==> (#[trigger] dominates(e, root, a, b) <==> tree.above(a as int, b as int))
}

/// The index of the dominator tree, if all nodes can be reached.
#[verifier::rlimit(40)]
fn dominator_index(n: usize, edges: &Vec<IEdge>, root: usize) -> (index: Option<TreeIndex>)
    requires
        ends_below(edges@, n as int),
        root < n,
        n < usize::MAX / 16,
    ensures
        match index {
            Some(tree) => {
                &&& is_dominator_index(tree, edge_steps(edges@), root, n)
                &&& forall|v: usize|
                    v < n ==> #[trigger] reaches(
                        edge_steps(edges@),
                        root,
                        v,
                    )
            },
            None => exists|v: usize|
                v < n && !#[trigger] reaches(edge_steps(edges@), root, v),
        },
{
    let ghost e = edge_steps(edges@);
    let adjacency = adjacency_of(n, edges);
    let dominators = compute_dominators(&adjacency, root);
    let order = dominators.order();
    proof {
        assert forall|a: usize, b: usize| #[trigger] flow(&adjacency)(a, b) == e(a, b) by {}
        assert(flow(&adjacency) =~= e);
        assert forall|i: int| 0 <= i < order@.len() implies #[trigger] order@[i] < n by {
            assert(order@.contains(order@[i]));
            lemma_reached_below(edges@, n, root, order@[i]);
        }
    }
    let mut parent: Vec<usize> = Vec::new();
    for v in 0..n
        invariant
            e == dominators.flow(),
            root == dominators.spec_root(),
            forall|i: int| 0 <= i < order@.len() ==> #[trigger] order@[i] < n,
            forall|x: usize| #[trigger] order@.contains(x) <==> reaches(e, root, x),
            e == edge_steps(edges@),
            parent@.len() == v,
            forall|x: int|
                0 <= x < v ==> (if x == root {
                    #[trigger] parent@[x] == root
                } else {
                    immediately_dominates(e, root, parent@[x], x as usize)
                }),
    {
        if v == root {
            parent.push(root);
        } else {
            match dominators.immediate_dominator(v) {
                Some(p) => {
                    parent.push(p);
                },
                None => {
                    assert(!reaches(e, root, v));
                    return None;
                },
            }
        }
    }
    proof {
        assert(order@.contains(order@[0]));
        assert forall|v: usize| v < n implies #[trigger] reaches(e, root, v) by {
            if v != root {
                assert(immediately_dominates(e, root, parent@[v as int], v));
            }
        }
        assert forall|v: int| 0 <= v < n implies order@.contains(#[trigger] (v as usize)) by {
            assert(reaches(e, root, v as usize));
        }
        let places = Seq::new(order@.len(), |i: int| order@[i] as int);
        assert forall|i: int, j: int|
            0 <= i < places.len() && 0 <= j < places.len() && i != j implies places[i] != places[j] by {
            assert(order@[i] != order@[j]);
        }
        crate::counting::lemma_distinct_in_range(places, 0, n as int);
        let all = Seq::new(n as nat, |v: int| v as usize);
        assert forall|i: int| 0 <= i < all.len() implies order@.contains(#[trigger] all[i]) by {}
        assert(all.no_duplicates());
        crate::graph::analysis::sese::lemma_sublist_length(all, order@);
        assert(order@.len() == n);
        assert forall|i: int| #![trigger order@[i]] 1 <= i < order@.len() implies order@[i] < parent@.len() && exists|j: int|
            0 <= j < i && order@[j] == parent@[order@[i] as int] by {
            let j = choose|j: int| 0 <= j < i && immediately_dominates(e, root, #[trigger] order@[j], order@[i]);
            let v = order@[i];
            assert(order@[0] == root);
            assert(v != root);
            assert(immediately_dominates(e, root, parent@[v as int], v));
            crate::graph::walk::lemma_immediate_dominator_unique(e, root, order@[j], parent@[v as int], v);
            assert(order@[j] == parent@[order@[i] as int]);
        }
    }
    let tree = build_tree_index(parent, root, &order);
    proof {
        assert forall|a: usize, b: usize| a < n && b < n implies (#[trigger] dominates(e, root, a, b) <==> tree.above(a as int, b as int)) by {
            lemma_above_is_dominance(tree, e, root, n, a, b);
        }
    }
    Some(tree)
}

/// Nodes that can be reached are ends of edges, or the root.
proof fn lemma_reached_below(edges: Seq<IEdge>, n: usize, root: usize, v: usize)
    requires
        ends_below(edges, n as int),
        root < n,
        reaches(edge_steps(edges), root, v),
    ensures
        v < n,
{
    let e = edge_steps(edges);
    let p = choose|p: Seq<usize>| walk_between(e, p, root, v);
    if p.len() > 1 {
        assert(step_at(e, p, p.len() - 2));
        let j = choose|j: int|
            0 <= j < edges.len() && #[trigger] edges[j] == (IEdge { from: p[p.len() - 2], to: v });
        assert(edges[j].to < n);
    }
}

proof fn lemma_above_is_dominance(
    tree: TreeIndex,
    e: spec_fn(usize, usize) -> bool,
    root: usize,
    n: usize,
    a: usize,
    b: usize,
)
    requires
        tree.wf(root as int),
        tree.count() == n,
        root < n,
        a < n,
        b < n,
        forall|v: usize| v < n ==> #[trigger] reaches(e, root, v),
        forall|x: int|
            0 <= x < n ==> (if x == root {
                #[trigger] tree.parent@[x] == root
            } else {
                immediately_dominates(e, root, tree.parent@[x], x as usize)
            }),
    ensures
        dominates(e, root, a, b) <==> tree.above(a as int, b as int),
    decreases tree.depth@[b as int],
{
    assert(reaches(e, root, b));
    lemma_dominance_reflexive(e, root, b);
    if b == root {
        if dominates(e, root, a, root) {
            lemma_trivial_walk(e, root);
            assert(seq![root].contains(a));
        }
        if tree.above(a as int, root as int) {
            lemma_above_depth(tree.parent@, root as int, tree.depth@, a as int, root as int);
        }
    } else {
        let d = tree.parent@[b as int];
        assert(immediately_dominates(e, root, d, b));
        assert(tree.depth@[b as int] == tree.depth@[d as int] + 1);
        lemma_above_is_dominance(tree, e, root, n, a, d);
        if dominates(e, root, a, b) && a != b {
            assert(strictly_dominates(e, root, a, b));
        }
        if dominates(e, root, a, d) {
            lemma_dominance_transitive(e, root, a, d, b);
        }
    }
}

/// Every edge that leaves the subtree of `x` leads to `entry` or above it.
pub open spec fn is_calm(tree: TreeIndex, edges: Seq<IEdge>, entry: int, x: int) -> bool {
    forall|j: int| #[trigger]
        leaving_subtree(tree, edges, x).contains(j) ==> lower_depth_of(tree, edges[j])
            <= tree.depth@[entry]
}

/// All of the subtree of `entry` is a hammock: it does not hold the sink, and every edge
/// that leaves it leads to `exit`.
pub open spec fn is_whole(
    tree: TreeIndex,
    edges: Seq<IEdge>,
    original: int,
    sink: int,
    entry: int,
    exit: int,
) -> bool {
    let out = leaving_subtree(tree, edges, entry);
    &&& exists|j: int| #[trigger] out.contains(j)
    &&& forall|j: int| #[trigger] out.contains(j) ==> edges[j].to == exit
    &&& 0 <= exit < original
    &&& !tree.above(entry, sink)
    &&& tree.size@[entry] >= 2
}

/// `limit` is the lowest node above all that leads out of the subtree of `entry`: the
/// sources of the edges that leave it, and the sink if it is there.
pub open spec fn is_limit(
    tree: TreeIndex,
    edges: Seq<IEdge>,
    sink: int,
    entry: int,
    limit: int,
) -> bool {
    let out = leaving_subtree(tree, edges, entry);
    &&& (exists|j: int| #[trigger] out.contains(j)) || tree.above(entry, sink)
    &&& 0 <= limit < tree.count()
    &&& forall|j: int| #[trigger] out.contains(j) ==> tree.above(limit, edges[j].from as int)
    &&& tree.above(entry, sink) ==> tree.above(limit, sink)
    &&& forall|c: int|
        (forall|j: int| #[trigger] out.contains(j) ==> tree.above(c, edges[j].from as int)) && (
        tree.above(entry, sink) ==> tree.above(c, sink)) ==> #[trigger] tree.above(c, limit)
}

/// Without the subtree of `x`, that of `entry` is a hammock with the exit `x`.
pub open spec fn is_cut(
    tree: TreeIndex,
    edges: Seq<IEdge>,
    entry: int,
    limit: int,
    x: int,
) -> bool {
    &&& 0 <= x < tree.count()
    &&& x != entry
    &&& tree.above(entry, x)
    &&& tree.above(x, limit)
    &&& is_calm(tree, edges, entry, x)
}

/// The deepest such node.
pub open spec fn is_deepest_cut(
    tree: TreeIndex,
    edges: Seq<IEdge>,
    entry: int,
    limit: int,
    x: int,
) -> bool {
    &&& is_cut(tree, edges, entry, limit, x)
    &&& forall|y: int| #[trigger] is_cut(tree, edges, entry, limit, y) ==> tree.above(y, x)
}

pub open spec fn has_whole(
    tree: TreeIndex,
    edges: Seq<IEdge>,
    original: int,
    sink: int,
    entry: int,
) -> bool {
    exists|y: int| #[trigger] is_whole(tree, edges, original, sink, entry, y)
}

pub open spec fn has_deepest_cut(
    tree: TreeIndex,
    edges: Seq<IEdge>,
    sink: int,
    entry: int,
    x: int,
) -> bool {
    exists|limit: int|
        {
            &&& #[trigger] is_limit(tree, edges, sink, entry, limit)
            &&& limit != entry
            &&& is_deepest_cut(tree, edges, entry, limit, x)
        }
}

/// A hammock: the subtree of `entry`, or what is left of it without the subtree of `exit`.
#[derive(Clone, Copy, PartialEq, Eq, Structural)]
pub struct HammockCandidate {
    pub entry: usize,
    pub exit: usize,
    pub partial: bool,
    pub size: usize,
}

/// The node `v` is in the hammock.
pub open spec fn in_hammock(tree: TreeIndex, c: HammockCandidate, v: int) -> bool {
    tree.above(c.entry as int, v) && !(c.partial && tree.above(c.exit as int, v))
}

/// `c` is the maximal hammock of its entry.
pub open spec fn is_hammock(
    tree: TreeIndex,
    edges: Seq<IEdge>,
    original: int,
    sink: int,
    root: int,
    c: HammockCandidate,
) -> bool {
    &&& c.entry < original
    &&& c.entry != root
    &&& if c.partial {
        &&& !has_whole(tree, edges, original, sink, c.entry as int)
        &&& has_deepest_cut(tree, edges, sink, c.entry as int, c.exit as int)
        &&& c.exit < original
        &&& c.size == tree.size@[c.entry as int] - tree.size@[c.exit as int]
        &&& c.size >= 2
    } else {
        is_whole(tree, edges, original, sink, c.entry as int, c.exit as int) && c.size
            == tree.size@[c.entry as int]
    }
}

/// An entry has at most one maximal hammock.
proof fn lemma_hammock_unique(
    tree: TreeIndex,
    edges: Seq<IEdge>,
    original: int,
    sink: int,
    root: int,
    c: HammockCandidate,
    d: HammockCandidate,
)
    requires
        tree.wf(root),
        original <= tree.count(),
        is_hammock(tree, edges, original, sink, root, c),
        is_hammock(tree, edges, original, sink, root, d),
        c.entry == d.entry,
    ensures
        c == d,
{
    let e = c.entry as int;
    if !c.partial && !d.partial {
        let j = choose|j: int| leaving_subtree(tree, edges, e).contains(j);
        assert(leaving_subtree(tree, edges, e).contains(j));
    } else if c.partial && d.partial {
        let l = choose|l: int|
            #[trigger] is_limit(tree, edges, sink, e, l) && l != e && is_deepest_cut(
                tree,
                edges,
                e,
                l,
                c.exit as int,
            );
        let m = choose|l: int|
            #[trigger] is_limit(tree, edges, sink, e, l) && l != e && is_deepest_cut(
                tree,
                edges,
                e,
                l,
                d.exit as int,
            );
        assert(tree.above(l, m) && tree.above(m, l));
        lemma_above_depth(tree.parent@, root, tree.depth@, l, m);
        lemma_above_depth(tree.parent@, root, tree.depth@, m, l);
        assert(l == m);
        let (x, y) = (c.exit as int, d.exit as int);
        assert(is_cut(tree, edges, e, l, x) && is_cut(tree, edges, e, l, y));
        lemma_above_depth(tree.parent@, root, tree.depth@, x, y);
        lemma_above_depth(tree.parent@, root, tree.depth@, y, x);
    }
}

/// What the search for hammocks has to hand: the summaries of all subtrees, and the
/// minima of their lower depths.
struct Search {
    summaries: Vec<Tag>,
    min_tree: MinTree,
}

impl Search {
    spec fn wf(&self, tree: TreeIndex, edges: Seq<IEdge>) -> bool {
        &&& self.summaries@.len() == tree.count()
        &&& forall|v: int|
            0 <= v < tree.count() ==> summarizes(
                tree,
                edges,
                #[trigger] self.summaries@[v],
                leaving_subtree(tree, edges, v),
            )
        &&& self.min_tree.wf()
        &&& 4 * self.min_tree.n <= usize::MAX
        &&& tree.count() <= self.min_tree.n
        &&& forall|p: int|
            0 <= p < tree.count() ==> #[trigger] self.min_tree.leaf(p)
                == self.summaries@[tree.at_pos@[p] as int].lower_depth
    }

    /// The maximal hammock of an entry, if it has one.
    #[verifier::rlimit(40)]
    fn find_candidate(
        &self,
        tree: &TreeIndex,
        root: usize,
        Ghost(edges): Ghost<Seq<IEdge>>,
        original: usize,
        sink: usize,
        entry: usize,
    ) -> (found: Option<HammockCandidate>)
        requires
            tree.wf(root as int),
            edges_in_tree(*tree, edges),
            self.wf(*tree, edges),
            original <= tree.count(),
            sink < tree.count(),
            entry < original,
        ensures
            match found {
                Some(c) => c.entry == entry && is_hammock(
                    *tree,
                    edges,
                    original as int,
                    sink as int,
                    root as int,
                    c,
                ),
                None => forall|c: HammockCandidate|
                    c.entry == entry ==> !#[trigger] is_hammock(
                        *tree,
                        edges,
                        original as int,
                        sink as int,
                        root as int,
                        c,
                    ),
            },
    {
        let ghost r = root as int;
        let ghost e = entry as int;
        let ghost out = leaving_subtree(*tree, edges, e);
        if entry == root {
            return None;
        }
        let summary = self.summaries[entry];
        assert(summarizes(*tree, edges, self.summaries@[e], out));
        let above_sink = tree.dominates(Ghost(r), entry, sink);
        assert(tree.size@[e] == tree.tout@[e] - tree.tin@[e]);
        match summary.target {
            Target::One(exit) => {
                if exit < original && !above_sink && tree.size[entry] >= 2 {
                    let c = HammockCandidate {
                        entry,
                        exit,
                        partial: false,
                        size: tree.size[entry],
                    };
                    assert(is_whole(*tree, edges, original as int, sink as int, e, exit as int));
                    return Some(c);
                }
            },
            _ => {},
        }
        proof {
            assert forall|y: int| !#[trigger] is_whole(
                *tree,
                edges,
                original as int,
                sink as int,
                e,
                y,
            ) by {
                if is_whole(*tree, edges, original as int, sink as int, e, y) {
                    let j = choose|j: int| out.contains(j);
                    assert(out.contains(j));
                    if summary.target == Target::Many {
                        let (p, q) = choose|p: int, q: int| #[trigger]
                            out.contains(p) && #[trigger] out.contains(q) && edges[p].to
                                != edges[q].to;
                        assert(edges[p].to == y && edges[q].to == y);
                    }
                }
            }
        }
        let limit: usize = match summary.source_lca {
            Some(l) => {
                if above_sink {
                    tree.lca(Ghost(r), l, sink)
                } else {
                    l
                }
            },
            None => {
                if above_sink {
                    sink
                } else {
                    return None;
                }
            },
        };
        proof {
            assert(is_limit(*tree, edges, sink as int, e, limit as int)) by {
                assert(tree.above(sink as int, sink as int));
                assert forall|j: int| #[trigger] out.contains(j) implies tree.above(
                    limit as int,
                    edges[j].from as int,
                ) by {
                    if let Some(l) = summary.source_lca {
                        if above_sink {
                            lemma_above_transitive(
                                tree.parent@,
                                tree.depth@,
                                limit as int,
                                l as int,
                                edges[j].from as int,
                            );
                        }
                    }
                }
                assert forall|c: int|
                    (forall|j: int| #[trigger] out.contains(j) ==> tree.above(
                        c,
                        edges[j].from as int,
                    )) && (tree.above(e, sink as int) ==> tree.above(c, sink as int)) implies
                    #[trigger] tree.above(c, limit as int) by {
                    if let Some(l) = summary.source_lca {
                        assert(is_lca_of_sources(*tree, edges, out, l as int));
                        assert(tree.above(c, l as int));
                    }
                }
            }
            assert forall|l: int| #[trigger] is_limit(*tree, edges, sink as int, e, l) implies l
                == limit by {
                assert(tree.above(l, limit as int) && tree.above(limit as int, l));
                lemma_above_depth(tree.parent@, r, tree.depth@, l, limit as int);
                lemma_above_depth(tree.parent@, r, tree.depth@, limit as int, l);
            }
        }
        if limit == entry {
            return None;
        }
        let ghost lower = Seq::new(
            self.summaries@.len(),
            |v: int| self.summaries@[v].lower_depth,
        );
        proof {
            assert(tree.above(e, limit as int));
            assert forall|x: int| is_good(*tree, lower, e, limit as int, x) == #[trigger] is_cut(
                *tree,
                edges,
                e,
                limit as int,
                x,
            ) by {
                if 0 <= x < tree.count() {
                    assert(summarizes(
                        *tree,
                        edges,
                        self.summaries@[x],
                        leaving_subtree(*tree, edges, x),
                    ));
                }
            }
        }
        match deepest_good(tree, Ghost(r), Ghost(lower), &self.min_tree, entry, limit) {
            Some(exit) => {
                proof {
                    assert(is_good(*tree, lower, e, limit as int, exit as int));
                    assert(is_cut(*tree, edges, e, limit as int, exit as int));
                    assert(is_deepest_cut(*tree, edges, e, limit as int, exit as int)) by {
                        assert forall|y: int| #[trigger] is_cut(
                            *tree,
                            edges,
                            e,
                            limit as int,
                            y,
                        ) implies tree.above(y, exit as int) by {
                            assert(is_good(*tree, lower, e, limit as int, y));
                        }
                    }
                    assert(tree.above(e, exit as int));
                    assert(tree.size@[exit as int] == tree.tout@[exit as int] - tree.tin@[exit as int]);
                    lemma_size_below(*tree, r, e, exit as int);
                    assert forall|y: int| #[trigger] is_deepest_cut(
                        *tree,
                        edges,
                        e,
                        limit as int,
                        y,
                    ) implies y == exit by {
                        assert(is_cut(*tree, edges, e, limit as int, y));
                        lemma_above_depth(tree.parent@, r, tree.depth@, y, exit as int);
                        lemma_above_depth(tree.parent@, r, tree.depth@, exit as int, y);
                    }
                }
                if exit >= original {
                    return None;
                }
                let size: usize = tree.size[entry] - tree.size[exit];
                if size < 2 {
                    return None;
                }
                let c = HammockCandidate { entry, exit, partial: true, size };
                assert(is_limit(*tree, edges, sink as int, e, limit as int));
                assert(has_deepest_cut(*tree, edges, sink as int, e, exit as int));
                assert(is_hammock(
                    *tree,
                    edges,
                    original as int,
                    sink as int,
                    root as int,
                    c,
                ));
                Some(c)
            },
            None => {
                proof {
                    assert forall|y: int| !#[trigger] is_deepest_cut(
                        *tree,
                        edges,
                        e,
                        limit as int,
                        y,
                    ) by {
                        if is_deepest_cut(*tree, edges, e, limit as int, y) {
                            assert(is_cut(*tree, edges, e, limit as int, y));
                            assert(is_good(*tree, lower, e, limit as int, y));
                        }
                    }
                }
                None
            },
        }
    }
}

/// A subtree is no larger than one around it.
proof fn lemma_size_below(tree: TreeIndex, root: int, a: int, b: int)
    requires
        tree.wf(root),
        0 <= a < tree.count(),
        0 <= b < tree.count(),
        tree.above(a, b),
    ensures
        tree.tin@[a] <= tree.tin@[b],
        tree.tout@[b] <= tree.tout@[a],
        tree.size@[b] <= tree.size@[a],
{
    assert(tree.tin@[b] < tree.tout@[b]);
    let last = tree.tout@[b] - 1;
    let v = tree.at_pos@[last] as int;
    assert(tree.tin@[v] == last);
    assert(tree.above(b, v));
    lemma_above_transitive(tree.parent@, tree.depth@, a, b, v);
    assert(tree.above(a, v));
    assert(tree.size@[a] == tree.tout@[a] - tree.tin@[a]);
    assert(tree.size@[b] == tree.tout@[b] - tree.tin@[b]);
}

/// A hammock has the boundaries of one: an edge that enters it leads to its entry, and an
/// edge that leaves it leads to its exit.
#[verifier::rlimit(40)]
pub proof fn lemma_hammock_boundaries(
    tree: TreeIndex,
    edges: Seq<IEdge>,
    original: usize,
    sink: usize,
    root: usize,
    n: usize,
    c: HammockCandidate,
)
    requires
        is_dominator_index(tree, edge_steps(edges), root, n),
        ends_below(edges, n as int),
        forall|v: usize| v < n ==> #[trigger] reaches(edge_steps(edges), root, v),
        root < n,
        original <= n,
        is_hammock(tree, edges, original as int, sink as int, root as int, c),
    ensures
        in_hammock(tree, c, c.entry as int),
        !in_hammock(tree, c, c.exit as int),
        forall|j: int|
            #![trigger edges[j]]
            0 <= j < edges.len() && !in_hammock(tree, c, edges[j].from as int) && in_hammock(
                tree,
                c,
                edges[j].to as int,
            ) ==> edges[j].to == c.entry,
        forall|j: int|
            #![trigger edges[j]]
            0 <= j < edges.len() && in_hammock(tree, c, edges[j].from as int) && !in_hammock(
                tree,
                c,
                edges[j].to as int,
            ) ==> edges[j].to == c.exit,
{
    let (e, x) = (c.entry as int, c.exit as int);
    let (parent, depth) = (tree.parent@, tree.depth@);
    let r = root as int;
    let f = edge_steps(edges);
    assert(tree.above(e, e));
    assert(tree.above(x, x));
    let limit = if c.partial {
        choose|l: int|
            #[trigger] is_limit(tree, edges, sink as int, e, l) && l != e && is_deepest_cut(
                tree,
                edges,
                e,
                l,
                x,
            )
    } else {
        0
    };
    if c.partial {
        assert(is_cut(tree, edges, e, limit, x));
        if tree.above(x, e) {
            lemma_above_depth(parent, r, depth, x, e);
            lemma_above_depth(parent, r, depth, e, x);
        }
    } else {
        let j = choose|j: int| leaving_subtree(tree, edges, e).contains(j);
        assert(leaving_subtree(tree, edges, e).contains(j));
    }
    assert forall|j: int, v: int|
        #![trigger tree.above(v, edges[j].to as int)]
        0 <= j < edges.len() && 0 <= v < n && tree.above(v, edges[j].to as int) && v
            != edges[j].to implies tree.above(v, edges[j].from as int) by {
        let (u, w) = (edges[j].from, edges[j].to);
        assert(edges[j] == (IEdge { from: u, to: w }));
        assert(f(u, w));
        assert(reaches(f, root, u));
        assert(dominates(f, root, v as usize, w));
        lemma_strict_dominates_pred(f, root, v as usize, u, w);
        assert(dominates(f, root, v as usize, u));
    }
    assert forall|j: int|
        #![trigger edges[j]]
        0 <= j < edges.len() && !in_hammock(tree, c, edges[j].from as int) && in_hammock(
            tree,
            c,
            edges[j].to as int,
        ) implies edges[j].to == c.entry by {
        let (u, w) = (edges[j].from as int, edges[j].to as int);
        if w != e {
            assert(tree.above(e, w));
            assert(tree.above(e, u));
            assert(c.partial && tree.above(x, u) && !tree.above(x, w));
            assert(leaving_subtree(tree, edges, x).contains(j));
            assert(lower_depth_of(tree, edges[j]) <= depth[e]);
            let l = lemma_lca_exists(tree, r, u, w);
            lemma_lca_of(tree, r, u, w, l);
            assert(tree.above(e, l));
            lemma_above_depth(parent, r, depth, e, l);
            lemma_above_depth(parent, r, depth, e, w);
        }
    }
    assert forall|j: int|
        #![trigger edges[j]]
        0 <= j < edges.len() && in_hammock(tree, c, edges[j].from as int) && !in_hammock(
            tree,
            c,
            edges[j].to as int,
        ) implies edges[j].to == c.exit by {
        let (u, w) = (edges[j].from as int, edges[j].to as int);
        if tree.above(e, w) {
            assert(c.partial && tree.above(x, w));
            if w != x {
                assert(tree.above(x, u));
            }
        } else {
            assert(leaving_subtree(tree, edges, e).contains(j));
            if c.partial {
                lemma_above_transitive(parent, depth, x, limit, u);
            }
        }
    }
}

/// Two nodes have a lowest common ancestor.
proof fn lemma_lca_exists(tree: TreeIndex, root: int, a: int, b: int) -> (c: int)
    requires
        tree.wf(root),
        0 <= a < tree.count(),
        0 <= b < tree.count(),
    ensures
        tree.is_lca(a, b, c),
    decreases tree.depth@[a],
{
    let (parent, depth) = (tree.parent@, tree.depth@);
    if tree.above(a, b) {
        assert(tree.above(a, a));
        a
    } else {
        lemma_root_above(parent, root, depth, b);
        assert(a != root);
        assert(depth[a] == depth[parent[a] as int] + 1);
        let c = lemma_lca_exists(tree, root, parent[a] as int, b);
        lemma_parent_above(parent, root, depth, a, a);
        lemma_above_transitive(parent, depth, c, parent[a] as int, a);
        assert forall|x: int| #[trigger] tree.above(x, a) && tree.above(x, b) implies tree.above(x, c) by {
            lemma_parent_above(parent, root, depth, x, a);
            assert(tree.above(x, parent[a] as int));
        }
        c
    }
}

/// `list` holds the maximal hammocks of the entries below `top`, in the order of the
/// entries.
pub open spec fn lists_hammocks(
    tree: TreeIndex,
    edges: Seq<IEdge>,
    original: int,
    sink: int,
    root: int,
    top: int,
    list: Seq<HammockCandidate>,
) -> bool {
    &&& forall|i: int|
        #![trigger list[i]]
        0 <= i < list.len() ==> list[i].entry < top && is_hammock(
            tree,
            edges,
            original,
            sink,
            root,
            list[i],
        )
    &&& forall|i: int, j: int|
        0 <= i < j < list.len() ==> (#[trigger] list[i]).entry < (#[trigger] list[j]).entry
    &&& forall|c: HammockCandidate|
        c.entry < top && #[trigger] is_hammock(tree, edges, original, sink, root, c)
            ==> list.contains(c)
}

/// The order in which hammocks are considered: the largest first.
pub open spec fn hammock_keys(list: Seq<HammockCandidate>) -> Seq<Key> {
    Seq::new(
        list.len(),
        |i: int| ((usize::MAX - list[i].size) as usize, list[i].entry, list[i].exit),
    )
}

/// The hammocks have no node in common.
pub open spec fn are_apart(tree: TreeIndex, c: HammockCandidate, d: HammockCandidate) -> bool {
    forall|v: int|
        0 <= v < tree.count() ==> !(#[trigger] in_hammock(tree, c, v) && in_hammock(tree, d, v))
}

/// `c` has no node in common with any of `chosen`.
pub open spec fn is_apart_from(
    tree: TreeIndex,
    chosen: Seq<HammockCandidate>,
    c: HammockCandidate,
) -> bool {
    forall|i: int| 0 <= i < chosen.len() ==> are_apart(tree, #[trigger] chosen[i], c)
}

/// The hammocks that are chosen out of the first `k` in the order `order`: each is taken
/// that has no node in common with those taken before it.
pub open spec fn chosen_hammocks(
    tree: TreeIndex,
    list: Seq<HammockCandidate>,
    order: Seq<usize>,
    k: nat,
) -> Seq<HammockCandidate>
    decreases k,
{
    if k == 0 {
        Seq::empty()
    } else {
        let rest = chosen_hammocks(tree, list, order, (k - 1) as nat);
        let c = list[order[k - 1] as int];
        if is_apart_from(tree, rest, c) {
            rest.push(c)
        } else {
            rest
        }
    }
}

/// The first edge from `j` on that enters the hammock from outside at its entry.
pub open spec fn is_entry_edge(tree: TreeIndex, edges: Seq<IEdge>, c: HammockCandidate, j: int) -> bool {
    edges[j].to == c.entry && !in_hammock(tree, c, edges[j].from as int)
}

pub open spec fn is_exit_edge(tree: TreeIndex, edges: Seq<IEdge>, c: HammockCandidate, j: int) -> bool {
    edges[j].to == c.exit && in_hammock(tree, c, edges[j].from as int)
}

/// `j` is the first of the numbers below `count` with a property.
pub open spec fn is_first(has: spec_fn(int) -> bool, count: int, j: int) -> bool {
    0 <= j < count && has(j) && forall|k: int| 0 <= k < j ==> !#[trigger] has(k)
}

pub open spec fn entry_test(tree: TreeIndex, edges: Seq<IEdge>, c: HammockCandidate) -> spec_fn(
    int,
) -> bool {
    |j: int| is_entry_edge(tree, edges, c, j)
}

pub open spec fn exit_test(tree: TreeIndex, edges: Seq<IEdge>, c: HammockCandidate) -> spec_fn(
    int,
) -> bool {
    |j: int| is_exit_edge(tree, edges, c, j)
}

/// The hammock has an edge into it and one out of it among the first `count`.
pub open spec fn has_boundary_edges(
    tree: TreeIndex,
    edges: Seq<IEdge>,
    count: int,
    c: HammockCandidate,
) -> bool {
    &&& exists|j: int| 0 <= j < count && #[trigger] entry_test(tree, edges, c)(j)
    &&& exists|j: int| 0 <= j < count && #[trigger] exit_test(tree, edges, c)(j)
}

/// A hammock as it is reported: its nodes in increasing order, and its first boundary edges.
pub struct DenseHammock {
    pub nodes: Vec<usize>,
    pub entry_edge: usize,
    pub exit_edge: usize,
}

pub open spec fn reports(
    tree: TreeIndex,
    edges: Seq<IEdge>,
    original: int,
    count: int,
    c: HammockCandidate,
    found: DenseHammock,
) -> bool {
    &&& is_increasing(found.nodes@)
    &&& forall|v: usize| #[trigger]
        found.nodes@.contains(v) <==> v < original && in_hammock(tree, c, v as int)
    &&& is_first(entry_test(tree, edges, c), count, found.entry_edge as int)
    &&& is_first(exit_test(tree, edges, c), count, found.exit_edge as int)
}

/// Those of the first `k` chosen hammocks that have boundary edges.
pub open spec fn reported_of(
    tree: TreeIndex,
    edges: Seq<IEdge>,
    count: int,
    chosen: Seq<HammockCandidate>,
) -> Seq<HammockCandidate>
    decreases chosen.len(),
{
    if chosen.len() == 0 {
        Seq::empty()
    } else {
        let rest = reported_of(tree, edges, count, chosen.drop_last());
        if has_boundary_edges(tree, edges, count, chosen.last()) {
            rest.push(chosen.last())
        } else {
            rest
        }
    }
}

/// The graph has what the detection of hammocks needs: three nodes, a sink, and every node
/// can be reached from the root and leads to the sink.
pub open spec fn is_detectable(original: usize, root: usize, edges: Seq<IEdge>, joined: OneSink) -> bool {
    &&& original >= 3
    &&& joined.is_made_from(original, edges)
    &&& forall|v: usize| v < joined.count ==> #[trigger] reaches(edge_steps(joined.edges@), root, v)
    &&& forall|v: int|
        0 <= v < joined.count ==> #[trigger] reaches(
            arcs(joined.edges@, joined.edges@.len() as int, true),
            joined.sink as int,
            v,
        )
}

/// `found` are the hammocks of the graph: of the maximal hammocks of all entries, the
/// largest come first and keep those out that overlap them.
pub open spec fn are_hammocks_of(
    original: usize,
    root: usize,
    edges: Seq<IEdge>,
    joined: OneSink,
    tree: TreeIndex,
    list: Seq<HammockCandidate>,
    order: Seq<usize>,
    found: Seq<DenseHammock>,
) -> bool {
    let chosen = chosen_hammocks(tree, list, order, order.len());
    let reported = reported_of(tree, edges, edges.len() as int, chosen);
    &&& is_dominator_index(tree, edge_steps(joined.edges@), root, joined.count)
    &&& lists_hammocks(
        tree,
        joined.edges@,
        original as int,
        joined.sink as int,
        root as int,
        original as int,
        list,
    )
    &&& is_sorted_order(hammock_keys(list), order)
    &&& found.len() == reported.len()
    &&& forall|i: int|
        0 <= i < found.len() ==> reports(
            tree,
            edges,
            original as int,
            edges.len() as int,
            reported[i],
            #[trigger] found[i],
        )
}

/// `found` are the hammocks of a graph; there are none where they cannot be detected.
pub open spec fn are_hammocks(original: usize, root: usize, edges: Seq<IEdge>, found: Seq<DenseHammock>) -> bool {
    if exists|joined: OneSink| #[trigger] is_detectable(original, root, edges, joined) {
        exists|
            joined: OneSink,
            tree: TreeIndex,
            list: Seq<HammockCandidate>,
            order: Seq<usize>,
        |
            #[trigger] is_detectable(original, root, edges, joined) && #[trigger] are_hammocks_of(
                original,
                root,
                edges,
                joined,
                tree,
                list,
                order,
                found,
            )
    } else {
        found.len() == 0
    }
}

/// Chooses hammocks that have no node in common, the largest first.
#[verifier::rlimit(40)]
fn select_apart(
    tree: &TreeIndex,
    root: usize,
    Ghost(edges): Ghost<Seq<IEdge>>,
    original: usize,
    sink: usize,
    list: &Vec<HammockCandidate>,
    order: &Vec<usize>,
) -> (chosen: Vec<HammockCandidate>)
    requires
        tree.wf(root as int),
        original <= tree.count(),
        lists_hammocks(
            *tree,
            edges,
            original as int,
            sink as int,
            root as int,
            original as int,
            list@,
        ),
        is_sorted_order(hammock_keys(list@), order@),
    ensures
        chosen@ == chosen_hammocks(*tree, list@, order@, order@.len()),
        forall|i: int|
            #![trigger chosen@[i]]
            0 <= i < chosen@.len() ==> is_hammock(
                *tree,
                edges,
                original as int,
                sink as int,
                root as int,
                chosen@[i],
            ),
{
    let ghost r = root as int;
    let n: usize = tree.parent.len();
    let mut claimed: Vec<bool> = Vec::new();
    for p in 0..n
        invariant
            claimed@.len() == p,
            forall|q: int| 0 <= q < p ==> !#[trigger] claimed@[q],
    {
        claimed.push(false);
    }
    let mut chosen: Vec<HammockCandidate> = Vec::new();
    for k in 0..order.len()
        invariant
            tree.wf(r),
            r == root,
            n == tree.count(),
            original <= n,
            lists_hammocks(
                *tree,
                edges,
                original as int,
                sink as int,
                r,
                original as int,
                list@,
            ),
            is_sorted_order(hammock_keys(list@), order@),
            chosen@ == chosen_hammocks(*tree, list@, order@, k as nat),
            forall|i: int|
                #![trigger chosen@[i]]
                0 <= i < chosen@.len() ==> is_hammock(
                    *tree,
                    edges,
                    original as int,
                    sink as int,
                    r,
                    chosen@[i],
                ),
            claimed@.len() == n,
            forall|v: int|
                0 <= v < n ==> (#[trigger] claimed@[v] <==> is_claimed(*tree, chosen@, v)),
    {
        let c = list[order[k]];
        assert(is_hammock(*tree, edges, original as int, sink as int, r, list@[order@[k as int] as int]));
        let mut apart = true;
        for p in 0..n
            invariant
                tree.wf(r),
                n == tree.count(),
                original <= n,
                c.entry < original,
                c.partial ==> c.exit < original,
                claimed@.len() == n,
                forall|v: int|
                    0 <= v < n ==> (#[trigger] claimed@[v] <==> is_claimed(*tree, chosen@, v)),
                apart <==> forall|v: int|
                    0 <= v < p ==> !(#[trigger] in_hammock(*tree, c, v) && is_claimed(
                        *tree,
                        chosen@,
                        v,
                    )),
        {
            let inside = tree.dominates(Ghost(r), c.entry, p) && !(c.partial && tree.dominates(
                Ghost(r),
                c.exit,
                p,
            ));
            assert(inside == in_hammock(*tree, c, p as int));
            if inside && claimed[p] {
                apart = false;
            }
        }
        proof {
            assert(apart <==> is_apart_from(*tree, chosen@, c)) by {
                if apart {
                    assert forall|i: int| 0 <= i < chosen@.len() implies are_apart(
                        *tree,
                        #[trigger] chosen@[i],
                        c,
                    ) by {
                        assert forall|v: int| 0 <= v < n implies !(#[trigger] in_hammock(
                            *tree,
                            chosen@[i],
                            v,
                        ) && in_hammock(*tree, c, v)) by {
                            if in_hammock(*tree, chosen@[i], v) {
                                assert(is_claimed(*tree, chosen@, v));
                            }
                        }
                    }
                }
                if is_apart_from(*tree, chosen@, c) {
                    assert forall|v: int| 0 <= v < n implies !(#[trigger] in_hammock(*tree, c, v)
                        && is_claimed(*tree, chosen@, v)) by {
                        if is_claimed(*tree, chosen@, v) {
                            let i = choose|i: int|
                                0 <= i < chosen@.len() && in_hammock(*tree, #[trigger] chosen@[i], v);
                            assert(are_apart(*tree, chosen@[i], c));
                        }
                    }
                }
            }
        }
        if apart {
            let ghost before = chosen@;
            for p in 0..n
                invariant
                    tree.wf(r),
                    n == tree.count(),
                    original <= n,
                    c.entry < original,
                    c.partial ==> c.exit < original,
                    claimed@.len() == n,
                    forall|v: int|
                        0 <= v < n ==> (#[trigger] claimed@[v] <==> is_claimed(*tree, before, v) || (v
                            < p && in_hammock(*tree, c, v))),
            {
                let inside = tree.dominates(Ghost(r), c.entry, p) && !(c.partial && tree.dominates(
                    Ghost(r),
                    c.exit,
                    p,
                ));
                assert(inside == in_hammock(*tree, c, p as int));
                if inside {
                    claimed.set(p, true);
                }
            }
            chosen.push(c);
            proof {
                assert forall|v: int| 0 <= v < n implies (#[trigger] claimed@[v] <==> is_claimed(
                    *tree,
                    chosen@,
                    v,
                )) by {
                    if is_claimed(*tree, before, v) {
                        let i = choose|i: int|
                            0 <= i < before.len() && in_hammock(*tree, #[trigger] before[i], v);
                        assert(chosen@[i] == before[i]);
                    }
                    if in_hammock(*tree, c, v) {
                        assert(chosen@[before.len() as int] == c);
                    }
                    if is_claimed(*tree, chosen@, v) {
                        let i = choose|i: int|
                            0 <= i < chosen@.len() && in_hammock(*tree, #[trigger] chosen@[i], v);
                        if i < before.len() {
                            assert(before[i] == chosen@[i]);
                        }
                    }
                }
            }
        }
    }
    chosen
}

/// One of the hammocks holds `v`.
spec fn is_claimed(tree: TreeIndex, chosen: Seq<HammockCandidate>, v: int) -> bool {
    exists|i: int| 0 <= i < chosen.len() && in_hammock(tree, #[trigger] chosen[i], v)
}

/// The nodes and the first boundary edges of a hammock, if it has boundary edges.
#[verifier::rlimit(40)]
fn report_hammock(
    tree: &TreeIndex,
    Ghost(root): Ghost<int>,
    edges: &Vec<IEdge>,
    original: usize,
    c: HammockCandidate,
) -> (found: Option<DenseHammock>)
    requires
        tree.wf(root),
        original <= tree.count(),
        ends_below(edges@, original as int),
        c.entry < original,
        c.partial ==> c.exit < original,
    ensures
        match found {
            Some(found) => reports(
                *tree,
                edges@,
                original as int,
                edges@.len() as int,
                c,
                found,
            ) && has_boundary_edges(*tree, edges@, edges@.len() as int, c),
            None => !has_boundary_edges(*tree, edges@, edges@.len() as int, c),
        },
{
    let mut entry_edge: Option<usize> = None;
    let mut exit_edge: Option<usize> = None;
    let ghost into = entry_test(*tree, edges@, c);
    let ghost out = exit_test(*tree, edges@, c);
    for j in 0..edges.len()
        invariant
            tree.wf(root),
            original <= tree.count(),
            ends_below(edges@, original as int),
            c.entry < original,
            c.partial ==> c.exit < original,
            into == entry_test(*tree, edges@, c),
            out == exit_test(*tree, edges@, c),
            match entry_edge {
                Some(k) => is_first(into, j as int, k as int),
                None => forall|k: int| 0 <= k < j ==> !#[trigger] into(k),
            },
            match exit_edge {
                Some(k) => is_first(out, j as int, k as int),
                None => forall|k: int| 0 <= k < j ==> !#[trigger] out(k),
            },
    {
        let edge = edges[j];
        assert(edges@[j as int].from < original && edges@[j as int].to < original);
        let inside = tree.dominates(Ghost(root), c.entry, edge.from) && !(c.partial
            && tree.dominates(Ghost(root), c.exit, edge.from));
        assert(inside == in_hammock(*tree, c, edge.from as int));
        assert(into(j as int) == (edge.to == c.entry && !inside));
        assert(out(j as int) == (edge.to == c.exit && inside));
        if edge.to == c.entry && !inside && entry_edge.is_none() {
            entry_edge = Some(j);
        }
        if edge.to == c.exit && inside && exit_edge.is_none() {
            exit_edge = Some(j);
        }
    }
    match (entry_edge, exit_edge) {
        (Some(entry_edge), Some(exit_edge)) => {
            let mut nodes: Vec<usize> = Vec::new();
            for v in 0..original
                invariant
                    tree.wf(root),
                    original <= tree.count(),
                    c.entry < original,
                    c.partial ==> c.exit < original,
                    is_increasing(nodes@),
                    forall|k: int| 0 <= k < nodes@.len() ==> #[trigger] nodes@[k] < v,
                    forall|x: usize| #[trigger]
                        nodes@.contains(x) <==> x < v && in_hammock(*tree, c, x as int),
            {
                let inside = tree.dominates(Ghost(root), c.entry, v) && !(c.partial
                    && tree.dominates(Ghost(root), c.exit, v));
                assert(inside == in_hammock(*tree, c, v as int));
                if inside {
                    let ghost before = nodes@;
                    nodes.push(v);
                    proof {
                        assert(nodes@[before.len() as int] == v);
                        assert forall|x: usize| #[trigger] nodes@.contains(x) <==> x < v + 1
                            && in_hammock(*tree, c, x as int) by {
                            if before.contains(x) {
                                assert(nodes@[before.index_of(x)] == x);
                            }
                            if nodes@.contains(x) && x != v {
                                assert(before[nodes@.index_of(x)] == x);
                                assert(before.contains(x));
                            }
                        }
                    }
                }
            }
            assert(into(entry_edge as int) && out(exit_edge as int));
            Some(DenseHammock { nodes, entry_edge, exit_edge })
        },
        _ => None,
    }
}

/// Detects the hammocks of the graph with the nodes `0..original`.
#[verifier::rlimit(40)]
pub(crate) fn dense_hammocks(original: usize, root: usize, edges: &Vec<IEdge>) -> (found: Vec<DenseHammock>)
    requires
        ends_below(edges@, original as int),
        root < original,
        original < usize::MAX / 32,
    ensures
        are_hammocks(original, root, edges@, found@),
{
    if original < 3 {
        return Vec::new();
    }
    let joined = match join_sinks(original, edges) {
        Some(joined) => joined,
        None => {
            return Vec::new();
        },
    };
    let n: usize = joined.count;
    let sink: usize = joined.sink;
    let tree = match dominator_index(n, &joined.edges, root) {
        Some(tree) => tree,
        None => {
            proof {
                assert forall|other: OneSink| !#[trigger] is_detectable(
                    original,
                    root,
                    edges@,
                    other,
                ) by {
                    if is_detectable(original, root, edges@, other) {
                        assert(other.edges@ == joined.edges@ && other.count == joined.count);
                    }
                }
            }
            return Vec::new();
        },
    };
    let seen = reachable(&joined.edges, n, sink, joined.edges.len(), true);
    for v in 0..n
        invariant
            n == joined.count,
            sink == joined.sink,
            original >= 3,
            joined.is_made_from(original, edges@),
            seen@.len() == n,
            forall|x: int|
                0 <= x < n ==> (#[trigger] seen@[x] <==> reaches(
                    arcs(joined.edges@, joined.edges@.len() as int, true),
                    sink as int,
                    x,
                )),
            forall|x: int| 0 <= x < v ==> #[trigger] seen@[x],
    {
        if !seen[v] {
            proof {
                assert forall|other: OneSink| !#[trigger] is_detectable(
                    original,
                    root,
                    edges@,
                    other,
                ) by {
                    if is_detectable(original, root, edges@, other) {
                        assert(other.edges@ == joined.edges@ && other.count == joined.count
                            && other.sink == joined.sink);
                        assert(reaches(
                            arcs(other.edges@, other.edges@.len() as int, true),
                            other.sink as int,
                            v as int,
                        ));
                    }
                }
            }
            return Vec::new();
        }
    }
    proof {
        assert forall|v: int| 0 <= v < n implies #[trigger] reaches(
            arcs(joined.edges@, joined.edges@.len() as int, true),
            sink as int,
            v,
        ) by {
            assert(seen@[v]);
        }
        assert(is_detectable(original, root, edges@, joined));
        assert(edges_in_tree(tree, joined.edges@)) by {
            assert forall|j: int|
                #![trigger joined.edges@[j]]
                0 <= j < joined.edges@.len() implies joined.edges@[j].from < tree.count()
                && joined.edges@[j].to < tree.count() by {}
        }
    }
    let summaries = summarize_subtrees(&tree, root, &joined.edges);
    let mut lower: Vec<usize> = Vec::new();
    for p in 0..n
        invariant
            tree.wf(root as int),
            n == tree.count(),
            summaries@.len() == n,
            lower@.len() == p,
            forall|q: int|
                0 <= q < p ==> #[trigger] lower@[q] == summaries@[tree.at_pos@[q] as int].lower_depth,
    {
        assert(tree.at_pos@[p as int] < n);
        lower.push(summaries[tree.at_pos[p]].lower_depth);
    }
    let min_tree = MinTree::new(&lower);
    let search = Search { summaries, min_tree };
    proof {
        assert(4 * min_tree.n <= usize::MAX);
        assert forall|p: int| 0 <= p < n implies #[trigger] search.min_tree.leaf(p)
            == search.summaries@[tree.at_pos@[p] as int].lower_depth by {
            assert(min_tree.leaf(p) == lower@[p]);
        }
        assert(search.wf(tree, joined.edges@));
    }
    let mut list: Vec<HammockCandidate> = Vec::new();
    for entry in 0..original
        invariant
            tree.wf(root as int),
            n == tree.count(),
            original <= n,
            sink < n,
            edges_in_tree(tree, joined.edges@),
            search.wf(tree, joined.edges@),
            lists_hammocks(
                tree,
                joined.edges@,
                original as int,
                sink as int,
                root as int,
                entry as int,
                list@,
            ),
    {
        let ghost before = list@;
        match search.find_candidate(&tree, root, Ghost(joined.edges@), original, sink, entry) {
            Some(c) => {
                list.push(c);
                proof {
                    assert(list@[before.len() as int] == c);
                    assert forall|d: HammockCandidate|
                        d.entry < entry + 1 && #[trigger] is_hammock(
                            tree,
                            joined.edges@,
                            original as int,
                            sink as int,
                            root as int,
                            d,
                        ) implies list@.contains(d) by {
                        if d.entry == entry {
                            lemma_hammock_unique(
                                tree,
                                joined.edges@,
                                original as int,
                                sink as int,
                                root as int,
                                c,
                                d,
                            );
                        } else {
                            assert(before.contains(d));
                            assert(list@[before.index_of(d)] == d);
                        }
                    }
                }
            },
            None => {},
        }
    }
    let mut keys: Vec<Key> = Vec::new();
    for i in 0..list.len()
        invariant
            keys@ == hammock_keys(list@).subrange(0, i as int),
    {
        keys.push((usize::MAX - list[i].size, list[i].entry, list[i].exit));
        assert(keys@ =~= hammock_keys(list@).subrange(0, i + 1));
    }
    assert(keys@ =~= hammock_keys(list@));
    let order = sorted_order(&keys);
    let chosen = select_apart(
        &tree,
        root,
        Ghost(joined.edges@),
        original,
        sink,
        &list,
        &order,
    );
    let mut found: Vec<DenseHammock> = Vec::new();
    for i in 0..chosen.len()
        invariant
            tree.wf(root as int),
            original <= tree.count(),
            ends_below(edges@, original as int),
            forall|i: int|
                #![trigger chosen@[i]]
                0 <= i < chosen@.len() ==> is_hammock(
                    tree,
                    joined.edges@,
                    original as int,
                    sink as int,
                    root as int,
                    chosen@[i],
                ),
            found@.len() == reported_of(
                tree,
                edges@,
                edges@.len() as int,
                chosen@.subrange(0, i as int),
            ).len(),
            forall|k: int|
                0 <= k < found@.len() ==> reports(
                    tree,
                    edges@,
                    original as int,
                    edges@.len() as int,
                    reported_of(tree, edges@, edges@.len() as int, chosen@.subrange(0, i as int))[k],
                    #[trigger] found@[k],
                ),
    {
        let c = chosen[i];
        assert(chosen@.subrange(0, i + 1).drop_last() =~= chosen@.subrange(0, i as int));
        match report_hammock(&tree, Ghost(root as int), edges, original, c) {
            Some(one) => {
                found.push(one);
            },
            None => {},
        }
    }
    proof {
        assert(chosen@.subrange(0, chosen@.len() as int) =~= chosen@);
        assert(are_hammocks_of(
            original,
            root,
            edges@,
            joined,
            tree,
            list@,
            order@,
            found@,
        ));
    }
    found
}

/// The hammocks that are chosen are hammocks, and no two have a node in common.
proof fn lemma_chosen_hammocks(
    tree: TreeIndex,
    list: Seq<HammockCandidate>,
    order: Seq<usize>,
    k: nat,
)
    requires
        k <= order.len(),
        is_sorted_order(hammock_keys(list), order),
    ensures
        forall|i: int|
            0 <= i < chosen_hammocks(tree, list, order, k).len() ==> list.contains(
                #[trigger] chosen_hammocks(tree, list, order, k)[i],
            ),
        forall|i: int, j: int|
            0 <= i < j < chosen_hammocks(tree, list, order, k).len() ==> are_apart(
                tree,
                #[trigger] chosen_hammocks(tree, list, order, k)[i],
                #[trigger] chosen_hammocks(tree, list, order, k)[j],
            ),
    decreases k,
{
    if k > 0 {
        lemma_chosen_hammocks(tree, list, order, (k - 1) as nat);
        let rest = chosen_hammocks(tree, list, order, (k - 1) as nat);
        let all = chosen_hammocks(tree, list, order, k);
        let c = list[order[k - 1] as int];
        assert(order[k - 1] < list.len());
        assert forall|i: int| 0 <= i < all.len() implies list.contains(#[trigger] all[i]) by {
            if i < rest.len() {
                assert(list.contains(rest[i]));
            }
        }
        assert forall|i: int, j: int| 0 <= i < j < all.len() implies are_apart(
            tree,
            #[trigger] all[i],
            #[trigger] all[j],
        ) by {
            if j < rest.len() {
                assert(are_apart(tree, rest[i], rest[j]));
            } else {
                assert(are_apart(tree, rest[i], c));
            }
        }
    }
}

proof fn lemma_reported(tree: TreeIndex, edges: Seq<IEdge>, count: int, chosen: Seq<HammockCandidate>)
    ensures
        forall|i: int|
            0 <= i < reported_of(tree, edges, count, chosen).len() ==> chosen.contains(
                #[trigger] reported_of(tree, edges, count, chosen)[i],
            ),
        (forall|i: int, j: int|
            0 <= i < j < chosen.len() ==> are_apart(
                tree,
                #[trigger] chosen[i],
                #[trigger] chosen[j],
            )) ==> forall|i: int, j: int|
            0 <= i < j < reported_of(tree, edges, count, chosen).len() ==> are_apart(
                tree,
                #[trigger] reported_of(tree, edges, count, chosen)[i],
                #[trigger] reported_of(tree, edges, count, chosen)[j],
            ),
    decreases chosen.len(),
{
    if chosen.len() > 0 {
        let front = chosen.drop_last();
        lemma_reported(tree, edges, count, front);
        let rest = reported_of(tree, edges, count, front);
        let all = reported_of(tree, edges, count, chosen);
        assert forall|i: int| 0 <= i < all.len() implies chosen.contains(#[trigger] all[i]) by {
            if i < rest.len() {
                assert(front.contains(rest[i]));
                assert(chosen[front.index_of(rest[i])] == rest[i]);
            } else {
                assert(chosen[chosen.len() - 1] == all[i]);
            }
        }
        if forall|i: int, j: int|
            0 <= i < j < chosen.len() ==> are_apart(
                tree,
                #[trigger] chosen[i],
                #[trigger] chosen[j],
            ) {
            assert forall|i: int, j: int| 0 <= i < j < front.len() implies are_apart(
                tree,
                #[trigger] front[i],
                #[trigger] front[j],
            ) by {
                assert(are_apart(tree, chosen[i], chosen[j]));
            }
            assert forall|i: int, j: int| 0 <= i < j < all.len() implies are_apart(
                tree,
                #[trigger] all[i],
                #[trigger] all[j],
            ) by {
                if j < rest.len() {
                    assert(are_apart(tree, rest[i], rest[j]));
                } else {
                    assert(front.contains(rest[i]));
                    let k = front.index_of(rest[i]);
                    assert(are_apart(tree, chosen[k], chosen[chosen.len() - 1]));
                }
            }
        }
    }
}

/// `nodes` has the boundaries of a hammock with the edges `entry` and `exit`: the exit
/// lies outside, what enters leads to where `entry` leads, and what leaves leads to where
/// `exit` leads.
pub open spec fn has_boundaries(
    edges: Seq<IEdge>,
    nodes: Seq<usize>,
    entry: IEdge,
    exit: IEdge,
) -> bool {
    &&& nodes.contains(entry.to)
    &&& !nodes.contains(entry.from)
    &&& nodes.contains(exit.from)
    &&& !nodes.contains(exit.to)
    &&& forall|j: int|
        #![trigger edges[j]]
        0 <= j < edges.len() && !nodes.contains(edges[j].from) && nodes.contains(edges[j].to)
            ==> edges[j].to == entry.to
    &&& forall|j: int|
        #![trigger edges[j]]
        0 <= j < edges.len() && nodes.contains(edges[j].from) && !nodes.contains(edges[j].to)
            ==> edges[j].to == exit.to
}

/// Every hammock that is found has the boundaries of one, and no two have a node in common.
#[verifier::rlimit(40)]
pub proof fn law_hammocks_have_boundaries(
    original: usize,
    root: usize,
    edges: Seq<IEdge>,
    found: Seq<DenseHammock>,
)
    requires
        ends_below(edges, original as int),
        root < original,
        original < usize::MAX,
        are_hammocks(original, root, edges, found),
    ensures
        forall|i: int|
            #![trigger found[i]]
            0 <= i < found.len() ==> {
                &&& found[i].entry_edge < edges.len()
                &&& found[i].exit_edge < edges.len()
                &&& has_boundaries(
                    edges,
                    found[i].nodes@,
                    edges[found[i].entry_edge as int],
                    edges[found[i].exit_edge as int],
                )
            },
        forall|i: int, j: int, v: usize|
            0 <= i < j < found.len() && #[trigger] found[i].nodes@.contains(v)
                ==> !#[trigger] found[j].nodes@.contains(v),
{
    if exists|joined: OneSink| #[trigger] is_detectable(original, root, edges, joined) {
        let (joined, tree, list, order) = choose|
            joined: OneSink,
            tree: TreeIndex,
            list: Seq<HammockCandidate>,
            order: Seq<usize>,
        |
            #[trigger] is_detectable(original, root, edges, joined) && #[trigger] are_hammocks_of(
                original,
                root,
                edges,
                joined,
                tree,
                list,
                order,
                found,
            );
        let n = joined.count;
        let chosen = chosen_hammocks(tree, list, order, order.len());
        let reported = reported_of(tree, edges, edges.len() as int, chosen);
        lemma_chosen_hammocks(tree, list, order, order.len());
        lemma_reported(tree, edges, edges.len() as int, chosen);
        lemma_sinks_below(edges, original as nat);
        assert forall|j: int| 0 <= j < edges.len() implies #[trigger] joined.edges@[j] == edges[j] by {}
        assert(ends_below(joined.edges@, n as int)) by {
            assert forall|j: int|
                #![trigger joined.edges@[j]]
                0 <= j < joined.edges@.len() implies joined.edges@[j].from < n
                && joined.edges@[j].to < n by {
                if j < edges.len() {
                    assert(edges[j].from < original && edges[j].to < original);
                } else {
                    assert(sinks_below(edges, original as nat)[j - edges.len()] < original);
                }
            }
        }
        assert forall|i: int|
            #![trigger found[i]]
            0 <= i < found.len() implies {
            &&& found[i].entry_edge < edges.len()
            &&& found[i].exit_edge < edges.len()
            &&& has_boundaries(
                edges,
                found[i].nodes@,
                edges[found[i].entry_edge as int],
                edges[found[i].exit_edge as int],
            )
        } by {
            let c = reported[i];
            assert(chosen.contains(c));
            let k = chosen.index_of(c);
            assert(list.contains(chosen[k]));
            let l = list.index_of(c);
            assert(is_hammock(
                tree,
                joined.edges@,
                original as int,
                joined.sink as int,
                root as int,
                list[l],
            ));
            lemma_hammock_boundaries(tree, joined.edges@, original, joined.sink, root, n, c);
            let nodes = found[i].nodes@;
            let (a, b) = (found[i].entry_edge as int, found[i].exit_edge as int);
            assert(reports(tree, edges, original as int, edges.len() as int, c, found[i]));
            assert(is_entry_edge(tree, edges, c, a));
            assert(is_exit_edge(tree, edges, c, b));
            assert forall|j: int|
                #![trigger edges[j]]
                0 <= j < edges.len() && !nodes.contains(edges[j].from) && nodes.contains(
                    edges[j].to,
                ) implies edges[j].to == edges[a].to by {
                assert(joined.edges@[j] == edges[j]);
            }
            assert forall|j: int|
                #![trigger edges[j]]
                0 <= j < edges.len() && nodes.contains(edges[j].from) && !nodes.contains(
                    edges[j].to,
                ) implies edges[j].to == edges[b].to by {
                assert(joined.edges@[j] == edges[j]);
            }
        }
        assert forall|i: int, j: int, v: usize|
            0 <= i < j < found.len() && #[trigger] found[i].nodes@.contains(v) implies
            !#[trigger] found[j].nodes@.contains(v) by {
            assert(reports(tree, edges, original as int, edges.len() as int, reported[i], found[i]));
            assert(reports(tree, edges, original as int, edges.len() as int, reported[j], found[j]));
            assert(are_apart(tree, reported[i], reported[j]));
            assert(in_hammock(tree, reported[i], v as int));
        }
    }
}

/// A hammock in terms of the graph: its nodes in the order of their indices, and the
/// first edges that enter and leave it.
pub struct Hammock<NodeId, EdgeId> {
    pub nodes: Vec<NodeId>,
    pub entry_edge: EdgeId,
    pub exit_edge: EdgeId,
}

/// The edges of `list` between nodes of `ids`, loops included.
pub open spec fn edges_within<G: Graph>(
    graph: &G,
    ids: Seq<G::NodeId>,
    list: Seq<G::EdgeId>,
) -> Seq<G::EdgeId>
    decreases list.len(),
{
    if list.len() == 0 {
        Seq::empty()
    } else {
        let rest = edges_within(graph, ids, list.drop_last());
        let edge = list.last();
        if ids.contains(graph.spec_from(edge)) && ids.contains(graph.spec_to(edge)) {
            rest.push(edge)
        } else {
            rest
        }
    }
}

/// `ids` lists the same nodes as `component`, in the order of their indices.
pub open spec fn sorts<Id: Identifier>(component: Seq<Id>, ids: Seq<Id>) -> bool {
    &&& ids.len() == component.len()
    &&& forall|i: int, j: int|
        0 <= i < j < ids.len() ==> (#[trigger] ids[i]).spec_index() < (
        #[trigger] ids[j]).spec_index()
    &&& forall|n: Id| #[trigger] ids.contains(n) <==> component.contains(n)
}

/// A part of a graph with its nodes replaced by their positions.
pub struct Part<N, E> {
    pub ids: Vec<N>,
    pub originals: Vec<E>,
    pub edges: Vec<IEdge>,
    pub root: usize,
}

impl<N: Identifier, E: Identifier> Part<N, E> {
    /// The edges are those between the nodes, and `root` has its position.
    pub open spec fn connects<G: Graph<NodeId = N, EdgeId = E>>(&self, graph: &G, root: N) -> bool {
        &&& self.originals@ == edges_within(graph, self.ids@, graph.spec_edges())
        &&& edges_between(graph, self.ids@, self.originals@, self.edges@)
        &&& self.root < self.ids@.len()
        &&& self.ids@[self.root as int] == root
    }

    /// The part with the nodes of `component`, in their order.
    pub open spec fn lists<G: Graph<NodeId = N, EdgeId = E>>(
        &self,
        graph: &G,
        component: Seq<N>,
        root: N,
    ) -> bool {
        self.ids@ == component && self.connects(graph, root)
    }

    /// The part with the nodes of `component`, in the order of their indices.
    pub open spec fn represents<G: Graph<NodeId = N, EdgeId = E>>(
        &self,
        graph: &G,
        component: Seq<N>,
        root: N,
    ) -> bool {
        sorts(component, self.ids@) && self.connects(graph, root)
    }
}

/// The part of a graph with the nodes of `component`, over their positions in the order of
/// their indices.
pub fn part_of<G: Graph>(graph: &G, component: &Vec<G::NodeId>, root: G::NodeId) -> (part: Part<
    G::NodeId,
    G::EdgeId,
>)
    requires
        graph.is_intact(),
        component@.no_duplicates(),
        component@.contains(root),
    ensures
        part.represents(graph, component@, root),
{
    let ids = sort_ids(component);
    assert(ids@.contains(root));
    make_part(graph, ids, root)
}

/// The part of a graph with the nodes of `component`, over their positions in it.
pub fn listed_part<G: Graph>(graph: &G, component: &Vec<G::NodeId>, root: G::NodeId) -> (part: Part<
    G::NodeId,
    G::EdgeId,
>)
    requires
        graph.is_intact(),
        component@.no_duplicates(),
        component@.contains(root),
    ensures
        part.lists(graph, component@, root),
{
    let mut ids: Vec<G::NodeId> = Vec::new();
    for i in 0..component.len()
        invariant
            ids@ == component@.take(i as int),
    {
        ids.push(component[i]);
        assert(ids@ =~= component@.take(i + 1));
    }
    assert(ids@ =~= component@);
    make_part(graph, ids, root)
}

/// The part of a graph with these nodes, over their positions.
fn make_part<G: Graph>(graph: &G, ids: Vec<G::NodeId>, root: G::NodeId) -> (part: Part<
    G::NodeId,
    G::EdgeId,
>)
    requires
        graph.is_intact(),
        ids@.no_duplicates(),
        ids@.contains(root),
    ensures
        part.ids@ == ids@,
        part.connects(graph, root),
{
    let index = index_ids(&ids);
    let at: usize = match position(&index, Ghost(ids@), root) {
        Some(i) => i,
        None => {
            assert(ids@.contains(root));
            0
        },
    };
    let all = graph.edge_ids();
    let mut originals: Vec<G::EdgeId> = Vec::new();
    let mut edges: Vec<IEdge> = Vec::new();
    for i in 0..all.len()
        invariant
            graph.is_intact(),
            all@ == graph.spec_edges(),
            numbers_list(index@, ids@),
            originals@ == edges_within(graph, ids@, all@.subrange(0, i as int)),
            edges_between(graph, ids@, originals@, edges@),
    {
        let edge = all[i];
        assert(graph.spec_edges().contains(edge));
        assert(all@.subrange(0, i + 1).drop_last() =~= all@.subrange(0, i as int));
        let from = graph.source(edge);
        let to = graph.target(edge);
        let at_from = position(&index, Ghost(ids@), from);
        let at_to = position(&index, Ghost(ids@), to);
        match (at_from, at_to) {
            (Some(a), Some(b)) => {
                assert(ids@[a as int] == from && ids@[b as int] == to);
                originals.push(edge);
                edges.push(IEdge { from: a, to: b });
            },
            _ => {},
        }
    }
    assert(all@.subrange(0, all@.len() as int) =~= all@);
    Part { ids, originals, edges, root: at }
}

/// `hammocks` are those of the part of the graph with the nodes of `component`.
pub open spec fn are_hammocks_in<G: Graph>(
    graph: &G,
    component: Seq<G::NodeId>,
    root: G::NodeId,
    hammocks: Seq<Hammock<G::NodeId, G::EdgeId>>,
) -> bool {
    exists|part: Part<G::NodeId, G::EdgeId>, found: Seq<DenseHammock>|
        {
            &&& #[trigger] part.represents(graph, component, root)
            &&& #[trigger] are_hammocks(
                part.ids@.len() as usize,
                part.root,
                part.edges@,
                found,
            )
            &&& hammocks.len() == found.len()
            &&& forall|i: int|
                #![trigger hammocks[i]]
                0 <= i < hammocks.len() ==> {
                    &&& hammocks[i].nodes@ == picked(part.ids@, found[i].nodes@)
                    &&& hammocks[i].entry_edge == part.originals@[found[i].entry_edge as int]
                    &&& hammocks[i].exit_edge == part.originals@[found[i].exit_edge as int]
                }
        }
}

/// Detects maximal, pairwise-disjoint hammocks. Components without a genuine
/// sink, nodes unreachable from `root`, or nodes unable to reach a sink are
/// deliberately left alone rather than given semantics of their own.
pub fn compute_hammocks<G: Graph>(graph: &G, component: &Vec<G::NodeId>, root: G::NodeId) -> (hammocks: Vec<
    Hammock<G::NodeId, G::EdgeId>,
>)
    requires
        graph.is_intact(),
        component@.no_duplicates(),
        component@.contains(root),
        component@.len() < usize::MAX / 32,
    ensures
        are_hammocks_in(graph, component@, root, hammocks@),
{
    let part = part_of(graph, component, root);
    let m: usize = part.ids.len();
    proof {
        assert(ends_below(part.edges@, m as int)) by {
            assert forall|i: int|
                #![trigger part.edges@[i]]
                0 <= i < part.edges@.len() implies part.edges@[i].from < m && part.edges@[i].to
                < m by {}
        }
    }
    let found = dense_hammocks(m, part.root, &part.edges);
    proof {
        law_hammocks_have_boundaries(m, part.root, part.edges@, found@);
    }
    let mut hammocks: Vec<Hammock<G::NodeId, G::EdgeId>> = Vec::new();
    for i in 0..found.len()
        invariant
            m == part.ids@.len(),
            part.edges@.len() == part.originals@.len(),
            are_hammocks(m, part.root, part.edges@, found@),
            forall|i: int|
                #![trigger found@[i]]
                0 <= i < found@.len() ==> found@[i].entry_edge < part.edges@.len()
                    && found@[i].exit_edge < part.edges@.len(),
            hammocks@.len() == i,
            forall|k: int|
                #![trigger hammocks@[k]]
                0 <= k < i ==> {
                    &&& hammocks@[k].nodes@ == picked(part.ids@, found@[k].nodes@)
                    &&& hammocks@[k].entry_edge == part.originals@[found@[k].entry_edge as int]
                    &&& hammocks@[k].exit_edge == part.originals@[found@[k].exit_edge as int]
                },
    {
        let one = &found[i];
        proof {
            lemma_nodes_below(m, part.root, part.edges@, found@, i as int);
        }
        hammocks.push(
            Hammock {
                nodes: pick(&part.ids, &one.nodes),
                entry_edge: part.originals[one.entry_edge],
                exit_edge: part.originals[one.exit_edge],
            },
        );
    }
    assert(part.represents(graph, component@, root));
    assert(are_hammocks(part.ids@.len() as usize, part.root, part.edges@, found@));
    hammocks
}

pub(crate) proof fn lemma_nodes_below(
    original: usize,
    root: usize,
    edges: Seq<IEdge>,
    found: Seq<DenseHammock>,
    i: int,
)
    requires
        are_hammocks(original, root, edges, found),
        0 <= i < found.len(),
    ensures
        is_increasing(found[i].nodes@),
        forall|k: int| 0 <= k < found[i].nodes@.len() ==> #[trigger] found[i].nodes@[k] < original,
{
    assert(exists|joined: OneSink| #[trigger] is_detectable(original, root, edges, joined));
    assert forall|k: int| 0 <= k < found[i].nodes@.len() implies #[trigger] found[i].nodes@[k]
        < original by {
        assert(found[i].nodes@.contains(found[i].nodes@[k]));
        assert(exists|joined: OneSink| #[trigger] is_detectable(original, root, edges, joined));
    }
}

} // verus!
