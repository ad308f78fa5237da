//! Canonical single-entry/single-exit regions and their program-structure tree.
//!
//! Regions are edge based: an entry edge dominates a region's exit edge, the
//! exit post-dominates the entry, and both edges are cycle equivalent.  A
//! synthetic exit (connected back to the root) makes the reachable flow graph one
//! with one terminal.  Synthetic edges are analysis-only and never appear in the
//! returned tree.
use crate::counting::{count_true, lemma_count_bound, lemma_count_set};
use crate::graph::analysis::nesting::{
    assign_owners, holds_all, is_increasing, is_laminar, is_nesting, is_ownership, lists_laminar,
    nest, overlaps,
};
use crate::graph::analysis::dominator::reachable_from_root;
use crate::graph::walk::{lemma_extend, lemma_trivial_walk, reaches, step_at, walk_between};
use crate::graph::node::{lemma_relations, relations, ChildMode};
use crate::graph::{flow, is_navigable, lemma_walk_stays, neighbours, Cfg, Graph};
use crate::indexing::{index_ids, numbers_list, position};
use crate::registry::{lemma_id_injective, same_id, Identifier};
use crate::sorting::{comes_before, is_sorted_order, lemma_sorted_order, sorted_order, Key};
use vstd::prelude::*;

verus! {

/// An edge between two numbered nodes.
#[derive(Clone, Copy, PartialEq, Eq, Structural)]
pub struct IEdge {
    pub from: usize,
    pub to: usize,
}

/// Edge `i` leads from `x` to `y`, or from `y` to `x` when edges are followed backward.
pub open spec fn edge_leads(edges: Seq<IEdge>, i: int, reverse: bool, x: int, y: int) -> bool {
    if reverse {
        edges[i].to == x && edges[i].from == y
    } else {
        edges[i].from == x && edges[i].to == y
    }
}

/// The steps over all edges but `skip`.
pub open spec fn arcs(edges: Seq<IEdge>, skip: int, reverse: bool) -> spec_fn(int, int) -> bool {
    |x: int, y: int|
        exists|i: int|
            0 <= i < edges.len() && i != skip && #[trigger] edge_leads(edges, i, reverse, x, y)
}

pub open spec fn ends_below(edges: Seq<IEdge>, n: int) -> bool {
    forall|i: int|
        #![trigger edges[i]]
        0 <= i < edges.len() ==> edges[i].from < n && edges[i].to < n
}

/// The nodes that can be reached from `start` without the edge `skip`.
#[verifier::rlimit(40)]
pub(crate) fn reachable(edges: &Vec<IEdge>, n: usize, start: usize, skip: usize, reverse: bool) -> (seen:
    Vec<bool>)
    requires
        ends_below(edges@, n as int),
        start < n,
    ensures
        seen@.len() == n,
        forall|v: int|
            0 <= v < n ==> (#[trigger] seen@[v] <==> reaches(
                arcs(edges@, skip as int, reverse),
                start as int,
                v,
            )),
{
    let ghost e = arcs(edges@, skip as int, reverse);
    let mut seen: Vec<bool> = Vec::new();
    for v in 0..n
        invariant
            seen@.len() == v,
            forall|i: int| 0 <= i < v ==> !#[trigger] seen@[i],
    {
        seen.push(false);
    }
    let mut stack: Vec<usize> = vec![start];
    proof {
        lemma_trivial_walk(e, start as int);
        lemma_count_bound(seen@);
    }
    while stack.len() > 0
        invariant
            ends_below(edges@, n as int),
            start < n,
            e == arcs(edges@, skip as int, reverse),
            seen@.len() == n,
            forall|v: int| 0 <= v < n && #[trigger] seen@[v] ==> reaches(e, start as int, v),
            forall|k: int|
                0 <= k < stack@.len() ==> #[trigger] stack@[k] < n && reaches(
                    e,
                    start as int,
                    stack@[k] as int,
                ),
            seen@[start as int] || stack@.contains(start),
            forall|x: int, y: int|
                0 <= x < n && seen@[x] && #[trigger] e(x, y) ==> 0 <= y < n && (seen@[y]
                    || stack@.contains(y as usize)),
            count_true(seen@) <= n,
        decreases n - count_true(seen@), stack@.len(),
    {
        let ghost stack0 = stack@;
        let ghost seen0 = seen@;
        let node: usize = stack.pop().unwrap();
        assert(stack0[stack0.len() - 1] == node);
        proof {
            assert forall|k: int| 0 <= k < stack@.len() implies #[trigger] stack@[k] < n && reaches(
                e,
                start as int,
                stack@[k] as int,
            ) by {
                assert(stack0[k] == stack@[k]);
            }
            assert forall|z: usize| stack0.contains(z) implies z == node || stack@.contains(z) by {
                let k = stack0.index_of(z);
                if k < stack@.len() {
                    assert(stack@[k] == z);
                }
            }
        }
        if !seen[node] {
            proof {
                lemma_count_set(seen@, node as int);
            }
            seen.set(node, true);
            proof {
                lemma_count_bound(seen@);
            }
            let ghost stack1 = stack@;
            for i in 0..edges.len()
                invariant
                    ends_below(edges@, n as int),
                    e == arcs(edges@, skip as int, reverse),
                    seen@.len() == n,
                    node < n,
                    reaches(e, start as int, node as int),
                    forall|k: int|
                        0 <= k < stack@.len() ==> #[trigger] stack@[k] < n && reaches(
                            e,
                            start as int,
                            stack@[k] as int,
                        ),
                    forall|z: usize| #[trigger] stack1.contains(z) ==> stack@.contains(z),
                    forall|k: int, y: int|
                        0 <= k < i && k != skip && #[trigger] edge_leads(
                            edges@,
                            k,
                            reverse,
                            node as int,
                            y,
                        ) ==> seen@[y] || stack@.contains(y as usize),
            {
                let ghost stack2 = stack@;
                assert(edges@[i as int].from < n);
                if i != skip {
                    let edge = edges[i];
                    let (from, to) = if reverse {
                        (edge.to, edge.from)
                    } else {
                        (edge.from, edge.to)
                    };
                    if from == node && !seen[to] {
                        stack.push(to);
                        proof {
                            assert(edge_leads(edges@, i as int, reverse, node as int, to as int));
                            let p = choose|p: Seq<int>|
                                walk_between(e, p, start as int, node as int);
                            lemma_extend(e, p, start as int, node as int, to as int);
                            assert(stack@[stack2.len() as int] == to);
                            assert forall|z: usize| #[trigger] stack2.contains(z) implies stack@.contains(
                                z,
                            ) by {
                                assert(stack@[stack2.index_of(z)] == z);
                            }
                        }
                    }
                }
            }
            proof {
                assert forall|x: int, y: int|
                    0 <= x < n && seen@[x] && #[trigger] e(x, y) implies 0 <= y < n && (seen@[y]
                    || stack@.contains(y as usize)) by {
                    let k = choose|k: int|
                        0 <= k < edges@.len() && k != skip && #[trigger] edge_leads(
                            edges@,
                            k,
                            reverse,
                            x,
                            y,
                        );
                    assert(edges@[k].from < n && edges@[k].to < n);
                    if x != node {
                        assert(seen0[x]);
                        if !seen0[y] && y != node {
                            assert(stack0.contains(y as usize));
                            assert(stack1.contains(y as usize));
                        }
                    }
                }
                if !seen@[start as int] {
                    assert(stack1.contains(start));
                }
            }
        } else {
            proof {
                assert forall|x: int, y: int|
                    0 <= x < n && seen@[x] && #[trigger] e(x, y) implies 0 <= y < n && (seen@[y]
                    || stack@.contains(y as usize)) by {
                    if !seen@[y] {
                        assert(stack0.contains(y as usize));
                    }
                }
            }
        }
    }
    proof {
        assert forall|v: int| 0 <= v < n && reaches(e, start as int, v) implies #[trigger] seen@[v] by {
            let p = choose|p: Seq<int>| walk_between(e, p, start as int, v);
            lemma_seen_closed(e, seen@, p, p.len() - 1);
        }
    }
    seen
}

/// A walk never leaves a set that is closed under its steps.
pub(crate) proof fn lemma_seen_closed(
    e: spec_fn(int, int) -> bool,
    seen: Seq<bool>,
    p: Seq<int>,
    i: int,
)
    requires
        crate::graph::walk::is_walk(e, p),
        0 <= p[0] < seen.len(),
        seen[p[0]],
        0 <= i < p.len(),
        forall|x: int, y: int|
            0 <= x < seen.len() && seen[x] && #[trigger] e(x, y) ==> 0 <= y < seen.len() && seen[y],
    ensures
        0 <= p[i] < seen.len(),
        seen[p[i]],
    decreases i,
{
    if i > 0 {
        lemma_seen_closed(e, seen, p, i - 1);
        assert(crate::graph::walk::step_at(e, p, i - 1));
    }
}

/// Every walk from `root` over the edge `b` goes over the edge `a` first.
pub open spec fn spec_edge_dominates(edges: Seq<IEdge>, root: int, a: int, b: int) -> bool {
    !reaches(arcs(edges, a, false), root, edges[b].from as int)
}

/// Every walk from the edge `a` to `exit` goes over the edge `b`.
pub open spec fn spec_edge_postdominates(edges: Seq<IEdge>, exit: int, b: int, a: int) -> bool {
    !reaches(arcs(edges, b, true), exit, edges[a].to as int)
}

/// Every cycle over one of the two edges goes over the other.
pub open spec fn spec_cycle_equivalent(edges: Seq<IEdge>, a: int, b: int) -> bool {
    &&& !reaches(arcs(edges, b, false), edges[a].to as int, edges[a].from as int)
    &&& !reaches(arcs(edges, a, false), edges[b].to as int, edges[b].from as int)
}

/// The node `v` lies between the edges `entry` and `exit`.
pub open spec fn lies_between(edges: Seq<IEdge>, entry: int, exit: int, v: int) -> bool {
    &&& reaches(arcs(edges, exit, false), edges[entry].to as int, v)
    &&& reaches(arcs(edges, entry, true), edges[exit].from as int, v)
}

fn edge_dominates(edges: &Vec<IEdge>, n: usize, root: usize, a: usize, b: usize) -> (r: bool)
    requires
        ends_below(edges@, n as int),
        root < n,
        b < edges@.len(),
    ensures
        r == spec_edge_dominates(edges@, root as int, a as int, b as int),
{
    assert(edges@[b as int].from < n);
    !reachable(edges, n, root, a, false)[edges[b].from]
}

fn edge_postdominates(edges: &Vec<IEdge>, n: usize, exit: usize, b: usize, a: usize) -> (r: bool)
    requires
        ends_below(edges@, n as int),
        exit < n,
        a < edges@.len(),
    ensures
        r == spec_edge_postdominates(edges@, exit as int, b as int, a as int),
{
    assert(edges@[a as int].to < n);
    !reachable(edges, n, exit, b, true)[edges[a].to]
}

fn cycle_equivalent(edges: &Vec<IEdge>, n: usize, a: usize, b: usize) -> (r: bool)
    requires
        ends_below(edges@, n as int),
        a < edges@.len(),
        b < edges@.len(),
    ensures
        r == spec_cycle_equivalent(edges@, a as int, b as int),
{
    assert(edges@[a as int].from < n && edges@[b as int].from < n);
    let a_cycle_without_b = reachable(edges, n, edges[a].to, b, false)[edges[a].from];
    let b_cycle_without_a = reachable(edges, n, edges[b].to, a, false)[edges[b].from];
    !a_cycle_without_b && !b_cycle_without_a
}

/// The nodes between two edges, without the synthetic exit `n - 1`, in increasing order.
fn region_nodes(edges: &Vec<IEdge>, n: usize, entry: usize, exit: usize) -> (nodes: Vec<usize>)
    requires
        ends_below(edges@, n as int),
        entry < edges@.len(),
        exit < edges@.len(),
        0 < n,
    ensures
        is_region(edges@, n as int, entry as int, exit as int, nodes@),
{
    assert(edges@[entry as int].to < n && edges@[exit as int].from < n);
    let forward = reachable(edges, n, edges[entry].to, exit, false);
    let backward = reachable(edges, n, edges[exit].from, entry, true);
    let mut nodes: Vec<usize> = Vec::new();
    for v in 0..n - 1
        invariant
            0 < n,
            forward@.len() == n,
            backward@.len() == n,
            forall|x: int|
                0 <= x < n ==> (#[trigger] forward@[x] <==> reaches(
                    arcs(edges@, exit as int, false),
                    edges@[entry as int].to as int,
                    x,
                )),
            forall|x: int|
                0 <= x < n ==> (#[trigger] backward@[x] <==> reaches(
                    arcs(edges@, entry as int, true),
                    edges@[exit as int].from as int,
                    x,
                )),
            is_increasing(nodes@),
            forall|k: int| 0 <= k < nodes@.len() ==> #[trigger] nodes@[k] < v,
            forall|x: usize| #[trigger]
                nodes@.contains(x) <==> x < v && lies_between(
                    edges@,
                    entry as int,
                    exit as int,
                    x as int,
                ),
    {
        let ghost before = nodes@;
        if forward[v] && backward[v] {
            nodes.push(v);
            proof {
                assert(nodes@[before.len() as int] == v);
                assert forall|x: usize| #[trigger] nodes@.contains(x) <==> x < v + 1
                    && lies_between(edges@, entry as int, exit as int, x as int) by {
                    if before.contains(x) {
                        assert(nodes@[before.index_of(x)] == x);
                    }
                    if nodes@.contains(x) && x != v {
                        assert(before[nodes@.index_of(x)] == x);
                        assert(before.contains(x));
                    }
                }
            }
        } else {
            assert(!(forward@[v as int] && backward@[v as int]));
        }
    }
    nodes
}

/// `nodes` lists the nodes between two edges, without the synthetic exit `n - 1`.
pub open spec fn is_region(edges: Seq<IEdge>, n: int, entry: int, exit: int, nodes: Seq<usize>) -> bool {
    &&& is_increasing(nodes)
    &&& forall|v: usize| #[trigger]
        nodes.contains(v) <==> v < n - 1 && lies_between(edges, entry, exit, v as int)
}

/// A pair of boundary edges with the nodes between them.
pub struct Candidate {
    pub entry: usize,
    pub exit: usize,
    pub nodes: Vec<usize>,
}

/// The edges `a` and `b` are the entry and the exit of a region.
pub open spec fn is_boundary(edges: Seq<IEdge>, n: int, root: int, exit: int, a: int, b: int) -> bool {
    &&& a != b
    &&& spec_edge_dominates(edges, root, a, b)
    &&& spec_edge_postdominates(edges, exit, b, a)
    &&& spec_cycle_equivalent(edges, a, b)
    &&& exists|v: int| 0 <= v < n - 1 && #[trigger] lies_between(edges, a, b, v)
}

pub open spec fn pair_before(a: usize, b: usize, c: usize, d: usize) -> bool {
    a < c || (a == c && b < d)
}

/// `list` holds every region between two of the first `count` edges, in the order of the
/// edges, up to the pair `(a, b)`.
pub open spec fn lists_candidates(
    edges: Seq<IEdge>,
    n: int,
    root: int,
    exit: int,
    count: usize,
    list: Seq<Candidate>,
    a: usize,
    b: usize,
) -> bool {
    &&& forall|k: int|
        #![trigger list[k]]
        0 <= k < list.len() ==> {
            &&& list[k].entry < count && list[k].exit < count
            &&& pair_before(list[k].entry, list[k].exit, a, b)
            &&& is_boundary(edges, n, root, exit, list[k].entry as int, list[k].exit as int)
            &&& is_region(edges, n, list[k].entry as int, list[k].exit as int, list[k].nodes@)
            &&& list[k].nodes@.len() > 0
        }
    &&& forall|k: int, l: int|
        0 <= k < l < list.len() ==> pair_before(
            (#[trigger] list[k]).entry,
            list[k].exit,
            (#[trigger] list[l]).entry,
            list[l].exit,
        )
    &&& forall|x: usize, y: usize|
        x < count && y < count && pair_before(x, y, a, b) && #[trigger] is_boundary(
            edges,
            n,
            root,
            exit,
            x as int,
            y as int,
        ) ==> exists|k: int|
            0 <= k < list.len() && (#[trigger] list[k]).entry == x && list[k].exit == y
}

/// All regions between two of the first `count` edges.
pub(crate) fn raw_candidates(edges: &Vec<IEdge>, n: usize, root: usize, exit: usize, count: usize) -> (list:
    Vec<Candidate>)
    requires
        ends_below(edges@, n as int),
        root < n,
        exit < n,
        count <= edges@.len(),
        0 < n,
    ensures
        lists_candidates(edges@, n as int, root as int, exit as int, count, list@, count, 0),
{
    let mut list: Vec<Candidate> = Vec::new();
    for a in 0..count
        invariant
            ends_below(edges@, n as int),
            root < n,
            exit < n,
            count <= edges@.len(),
            0 < n,
            lists_candidates(edges@, n as int, root as int, exit as int, count, list@, a, 0),
    {
        for b in 0..count
            invariant
                ends_below(edges@, n as int),
                root < n,
                exit < n,
                a < count <= edges@.len(),
                0 < n,
                lists_candidates(edges@, n as int, root as int, exit as int, count, list@, a, b),
        {
            let ghost before = list@;
            if a != b && edge_dominates(edges, n, root, a, b) && edge_postdominates(
                edges,
                n,
                exit,
                b,
                a,
            ) && cycle_equivalent(edges, n, a, b) {
                let nodes = region_nodes(edges, n, a, b);
                if nodes.len() > 0 {
                    proof {
                        let v = nodes@[0];
                        assert(nodes@.contains(v));
                        assert(lies_between(edges@, a as int, b as int, v as int));
                        assert(is_boundary(edges@, n as int, root as int, exit as int, a as int, b as int));
                    }
                    list.push(Candidate { entry: a, exit: b, nodes });
                    assert(list@.drop_last() =~= before);
                } else {
                    assert forall|v: int| 0 <= v < n - 1 implies !#[trigger] lies_between(
                        edges@,
                        a as int,
                        b as int,
                        v,
                    ) by {
                        assert(!nodes@.contains(v as usize));
                    }
                }
            }
            proof {
                lemma_candidates_step(edges@, n as int, root as int, exit as int, count, before, list@, a, b);
            }
        }
        proof {
            assert(lists_candidates(edges@, n as int, root as int, exit as int, count, list@, (a + 1) as usize, 0)) by {
                assert forall|x: usize, y: usize|
                    x < count && y < count && pair_before(x, y, (a + 1) as usize, 0) && #[trigger] is_boundary(
                        edges@,
                        n as int,
                        root as int,
                        exit as int,
                        x as int,
                        y as int,
                    ) implies exists|k: int|
                    0 <= k < list@.len() && (#[trigger] list@[k]).entry == x && list@[k].exit == y by {
                    assert(pair_before(x, y, a, count));
                }
            }
        }
    }
    list
}

proof fn lemma_candidates_step(
    edges: Seq<IEdge>,
    n: int,
    root: int,
    exit: int,
    count: usize,
    before: Seq<Candidate>,
    after: Seq<Candidate>,
    a: usize,
    b: usize,
)
    requires
        a < count,
        b < count,
        lists_candidates(edges, n, root, exit, count, before, a, b),
        if is_boundary(edges, n, root, exit, a as int, b as int) {
            &&& after.len() == before.len() + 1
            &&& after.drop_last() == before
            &&& after.last().entry == a && after.last().exit == b
            &&& is_region(edges, n, a as int, b as int, after.last().nodes@)
            &&& after.last().nodes@.len() > 0
        } else {
            after == before
        },
    ensures
        lists_candidates(edges, n, root, exit, count, after, a, (b + 1) as usize),
{
    assert forall|k: int| 0 <= k < before.len() implies after[k] == before[k] by {
        if after != before {
            assert(after.drop_last()[k] == before[k]);
        }
    }
    assert forall|x: usize, y: usize|
        x < count && y < count && pair_before(x, y, a, (b + 1) as usize) && #[trigger] is_boundary(
            edges,
            n,
            root,
            exit,
            x as int,
            y as int,
        ) implies exists|k: int|
        0 <= k < after.len() && (#[trigger] after[k]).entry == x && after[k].exit == y by {
        if x == a && y == b {
            assert(after[after.len() - 1].entry == x);
        } else {
            assert(pair_before(x, y, a, b));
            let k = choose|k: int|
                0 <= k < before.len() && (#[trigger] before[k]).entry == x && before[k].exit == y;
            assert(after[k].entry == x);
        }
    }
}

/// Both regions are entered over the same edge, or both are left over the same edge.
pub open spec fn shares_boundary(a: Candidate, b: Candidate) -> bool {
    a.entry == b.entry || a.exit == b.exit
}

/// The region `c` is the smallest that is entered over its entry edge, and the smallest that
/// is left over its exit edge.
pub open spec fn is_smallest(list: Seq<Candidate>, c: int) -> bool {
    forall|k: int|
        0 <= k < list.len() && k != c && shares_boundary(#[trigger] list[k], list[c])
            ==> comes_before(smallest_first(list), c as usize, k as usize)
}

/// The region `c` crosses none of the chosen ones.
pub open spec fn crosses_none(list: Seq<Candidate>, chosen: Seq<usize>, c: int) -> bool {
    forall|k: int|
        #![trigger chosen[k]]
        0 <= k < chosen.len() ==> is_laminar(list[c].nodes@, list[chosen[k] as int].nodes@)
}

/// The candidates that are chosen out of the first `k` in the order `order`: each is taken
/// that is the smallest at both of its boundary edges and crosses none of those taken
/// before it.
pub open spec fn chosen_of(list: Seq<Candidate>, order: Seq<usize>, k: nat) -> Seq<usize>
    decreases k,
{
    if k == 0 {
        Seq::empty()
    } else {
        let rest = chosen_of(list, order, (k - 1) as nat);
        if is_smallest(list, order[k - 1] as int) && crosses_none(
            list,
            rest,
            order[k - 1] as int,
        ) {
            rest.push(order[k - 1])
        } else {
            rest
        }
    }
}

/// The order in which candidates are considered: the smallest first, then by their edges.
pub open spec fn smallest_first(list: Seq<Candidate>) -> Seq<Key> {
    Seq::new(list.len(), |i: int| (list[i].nodes@.len() as usize, list[i].entry, list[i].exit))
}

/// The order in which chosen candidates are numbered: the largest first, then by their
/// edges.
pub open spec fn largest_first(list: Seq<Candidate>, chosen: Seq<usize>) -> Seq<Key> {
    Seq::new(
        chosen.len(),
        |i: int|
            (
                (usize::MAX - list[chosen[i] as int].nodes@.len()) as usize,
                list[chosen[i] as int].entry,
                list[chosen[i] as int].exit,
            ),
    )
}

/// `selected` are the canonical regions, the largest first.
pub open spec fn is_selection(list: Seq<Candidate>, selected: Seq<usize>) -> bool {
    exists|order: Seq<usize>, again: Seq<usize>|
        {
            &&& #[trigger] is_sorted_order(smallest_first(list), order)
            &&& #[trigger] is_sorted_order(
                largest_first(list, chosen_of(list, order, order.len())),
                again,
            )
            &&& selected == again.map_values(|i: usize| chosen_of(list, order, order.len())[i as int])
        }
}

/// Whether a candidate is the smallest at both of its boundary edges.
fn check_smallest(list: &Vec<Candidate>, c: usize) -> (smallest: bool)
    requires
        c < list@.len(),
    ensures
        smallest == is_smallest(list@, c as int),
{
    let candidate = &list[c];
    let size: usize = candidate.nodes.len();
    for k in 0..list.len()
        invariant
            c < list@.len(),
            *candidate == list@[c as int],
            size == candidate.nodes@.len(),
            forall|l: int|
                0 <= l < k && l != c && shares_boundary(#[trigger] list@[l], list@[c as int])
                    ==> comes_before(smallest_first(list@), c, l as usize),
    {
        let other = &list[k];
        if k != c && (other.entry == candidate.entry || other.exit == candidate.exit) {
            let width: usize = other.nodes.len();
            let before = if size != width {
                size < width
            } else if candidate.entry != other.entry {
                candidate.entry < other.entry
            } else if candidate.exit != other.exit {
                candidate.exit < other.exit
            } else {
                c < k
            };
            assert(before == comes_before(smallest_first(list@), c, k));
            if !before {
                assert(shares_boundary(list@[k as int], list@[c as int]));
                return false;
            }
        }
    }
    true
}

/// Chooses the canonical regions: the smallest region incident to each boundary, as far
/// as the chosen ones do not cross.
pub(crate) fn select_canonical(list: &Vec<Candidate>) -> (selected: Vec<usize>)
    ensures
        is_selection(list@, selected@),
{
    let mut keys: Vec<Key> = Vec::new();
    for i in 0..list.len()
        invariant
            keys@ == smallest_first(list@).subrange(0, i as int),
    {
        keys.push((list[i].nodes.len(), list[i].entry, list[i].exit));
        assert(keys@ =~= smallest_first(list@).subrange(0, i + 1));
    }
    assert(keys@ =~= smallest_first(list@));
    let order = sorted_order(&keys);
    let mut chosen: Vec<usize> = Vec::new();
    for k in 0..order.len()
        invariant
            is_sorted_order(smallest_first(list@), order@),
            chosen@ == chosen_of(list@, order@, k as nat),
            forall|j: int| 0 <= j < chosen@.len() ==> #[trigger] chosen@[j] < list@.len(),
    {
        let c: usize = order[k];
        let candidate = &list[c];
        let mut apart = true;
        for j in 0..chosen.len()
            invariant
                c < list@.len(),
                *candidate == list@[c as int],
                forall|j: int| 0 <= j < chosen@.len() ==> #[trigger] chosen@[j] < list@.len(),
                apart <==> forall|l: int|
                    #![trigger chosen@[l]]
                    0 <= l < j ==> is_laminar(
                        list@[c as int].nodes@,
                        list@[chosen@[l] as int].nodes@,
                    ),
        {
            if !lists_laminar(&candidate.nodes, &list[chosen[j]].nodes) {
                apart = false;
            }
        }
        assert(apart <==> crosses_none(list@, chosen@, c as int));
        if check_smallest(list, c) && apart {
            chosen.push(c);
        }
    }
    let ghost all = chosen_of(list@, order@, order@.len());
    let mut again_keys: Vec<Key> = Vec::new();
    for i in 0..chosen.len()
        invariant
            chosen@ == all,
            forall|j: int| 0 <= j < chosen@.len() ==> #[trigger] chosen@[j] < list@.len(),
            again_keys@ == largest_first(list@, all).subrange(0, i as int),
    {
        let c = &list[chosen[i]];
        again_keys.push((usize::MAX - c.nodes.len(), c.entry, c.exit));
        assert(again_keys@ =~= largest_first(list@, all).subrange(0, i + 1));
    }
    assert(again_keys@ =~= largest_first(list@, all));
    let again = sorted_order(&again_keys);
    let mut selected: Vec<usize> = Vec::new();
    for i in 0..again.len()
        invariant
            chosen@ == all,
            is_sorted_order(largest_first(list@, all), again@),
            selected@ == again@.subrange(0, i as int).map_values(|i: usize| all[i as int]),
    {
        selected.push(chosen[again[i]]);
        assert(selected@ =~= again@.subrange(0, i + 1).map_values(|i: usize| all[i as int]));
    }
    proof {
        assert(again@.subrange(0, again@.len() as int) =~= again@);
        assert(is_sorted_order(smallest_first(list@), order@));
        assert(is_sorted_order(largest_first(list@, all), again@));
    }
    selected
}

/// The chosen candidates are the smallest at their boundary edges, and do not cross.
proof fn lemma_chosen_compatible(list: Seq<Candidate>, order: Seq<usize>, k: nat, i: int, j: int)
    requires
        k <= order.len(),
        0 <= i < j < chosen_of(list, order, k).len(),
    ensures
        is_smallest(list, chosen_of(list, order, k)[i] as int),
        is_smallest(list, chosen_of(list, order, k)[j] as int),
        is_laminar(
            list[chosen_of(list, order, k)[j] as int].nodes@,
            list[chosen_of(list, order, k)[i] as int].nodes@,
        ),
    decreases k,
{
    let rest = chosen_of(list, order, (k - 1) as nat);
    if j < rest.len() {
        lemma_chosen_compatible(list, order, (k - 1) as nat, i, j);
    } else {
        assert(rest[i] == chosen_of(list, order, k)[i]);
        lemma_chosen_smallest(list, order, (k - 1) as nat, i);
    }
}

proof fn lemma_chosen_smallest(list: Seq<Candidate>, order: Seq<usize>, k: nat, i: int)
    requires
        k <= order.len(),
        0 <= i < chosen_of(list, order, k).len(),
    ensures
        is_smallest(list, chosen_of(list, order, k)[i] as int),
        exists|j: int| 0 <= j < k && chosen_of(list, order, k)[i] == #[trigger] order[j],
    decreases k,
{
    let rest = chosen_of(list, order, (k - 1) as nat);
    if i < rest.len() {
        lemma_chosen_smallest(list, order, (k - 1) as nat, i);
        let j = choose|j: int| 0 <= j < k - 1 && rest[i] == #[trigger] order[j];
        assert(chosen_of(list, order, k)[i] == order[j]);
    } else {
        assert(chosen_of(list, order, k)[i] == order[k - 1]);
    }
}

/// No candidate is chosen twice.
proof fn lemma_chosen_once(list: Seq<Candidate>, order: Seq<usize>, k: nat, i: int, j: int)
    requires
        order.no_duplicates(),
        k <= order.len(),
        0 <= i < j < chosen_of(list, order, k).len(),
    ensures
        chosen_of(list, order, k)[i] != chosen_of(list, order, k)[j],
    decreases k,
{
    let rest = chosen_of(list, order, (k - 1) as nat);
    if j < rest.len() {
        lemma_chosen_once(list, order, (k - 1) as nat, i, j);
    } else {
        lemma_chosen_smallest(list, order, (k - 1) as nat, i);
        let l = choose|l: int| 0 <= l < k - 1 && rest[i] == #[trigger] order[l];
        assert(order[l] != order[k - 1]);
    }
}

/// A candidate that is the smallest at both of its boundary edges is chosen where it
/// crosses no other such candidate.
proof fn lemma_smallest_is_chosen(list: Seq<Candidate>, order: Seq<usize>, k: nat, c: usize)
    requires
        is_sorted_order(smallest_first(list), order),
        k <= order.len(),
        is_smallest(list, c as int),
        forall|l: int|
            0 <= l < list.len() && is_smallest(list, l) ==> is_laminar(
                list[c as int].nodes@,
                (#[trigger] list[l]).nodes@,
            ),
        exists|j: int| 0 <= j < k && #[trigger] order[j] == c,
    ensures
        chosen_of(list, order, k).contains(c),
    decreases k,
{
    let rest = chosen_of(list, order, (k - 1) as nat);
    let all = chosen_of(list, order, k);
    if order[k - 1] == c {
        assert(crosses_none(list, rest, c as int)) by {
            assert forall|l: int| #![trigger rest[l]] 0 <= l < rest.len() implies is_laminar(
                list[c as int].nodes@,
                list[rest[l] as int].nodes@,
            ) by {
                lemma_chosen_smallest(list, order, (k - 1) as nat, l);
                lemma_chosen_members(list, order, (k - 1) as nat);
                assert(is_smallest(list, rest[l] as int));
                assert(list[rest[l] as int] == list[rest[l] as int]);
            }
        }
        assert(all[rest.len() as int] == c);
    } else {
        lemma_smallest_is_chosen(list, order, (k - 1) as nat, c);
        assert(all[rest.index_of(c)] == c);
    }
}

proof fn lemma_chosen_members(list: Seq<Candidate>, order: Seq<usize>, k: nat)
    requires
        is_sorted_order(smallest_first(list), order),
        k <= order.len(),
    ensures
        forall|i: int|
            0 <= i < chosen_of(list, order, k).len() ==> #[trigger] chosen_of(list, order, k)[i]
                < list.len(),
    decreases k,
{
    if k > 0 {
        lemma_chosen_members(list, order, (k - 1) as nat);
        let rest = chosen_of(list, order, (k - 1) as nat);
        assert(order[k - 1] < list.len());
        assert forall|i: int| 0 <= i < chosen_of(list, order, k).len() implies #[trigger] chosen_of(
            list,
            order,
            k,
        )[i] < list.len() by {
            if i < rest.len() {
                assert(rest[i] < list.len());
            }
        }
    }
}

/// The largest come first in a selection.
pub(crate) proof fn lemma_selection_order(list: Seq<Candidate>, selected: Seq<usize>, i: int, j: int)
    requires
        is_selection(list, selected),
        list.len() <= usize::MAX,
        0 <= i < j < selected.len(),
    ensures
        list[selected[j] as int].nodes@.len() <= list[selected[i] as int].nodes@.len(),
{
    let (order, again) = choose|order: Seq<usize>, again: Seq<usize>|
        {
            &&& #[trigger] is_sorted_order(smallest_first(list), order)
            &&& #[trigger] is_sorted_order(
                largest_first(list, chosen_of(list, order, order.len())),
                again,
            )
            &&& selected == again.map_values(|i: usize| chosen_of(list, order, order.len())[i as int])
        };
    let chosen = chosen_of(list, order, order.len());
    let keys = largest_first(list, chosen);
    assert(comes_before(keys, again[i], again[j]));
    let (a, b) = (list[selected[i] as int], list[selected[j] as int]);
    let (x, y): (usize, usize) = (a.nodes.len(), b.nodes.len());
    assert(keys[again[i] as int].0 == usize::MAX - x);
    assert(keys[again[j] as int].0 == usize::MAX - y);
}

/// A candidate that is the smallest at both of its boundary edges is selected where it
/// crosses no other such candidate.
pub(crate) proof fn lemma_smallest_is_selected(list: Seq<Candidate>, selected: Seq<usize>, c: usize)
    requires
        is_selection(list, selected),
        list.len() <= usize::MAX,
        c < list.len(),
        is_smallest(list, c as int),
        forall|l: int|
            0 <= l < list.len() && is_smallest(list, l) ==> is_laminar(
                list[c as int].nodes@,
                (#[trigger] list[l]).nodes@,
            ),
    ensures
        selected.contains(c),
{
    let (order, again) = choose|order: Seq<usize>, again: Seq<usize>|
        {
            &&& #[trigger] is_sorted_order(smallest_first(list), order)
            &&& #[trigger] is_sorted_order(
                largest_first(list, chosen_of(list, order, order.len())),
                again,
            )
            &&& selected == again.map_values(|i: usize| chosen_of(list, order, order.len())[i as int])
        };
    let chosen = chosen_of(list, order, order.len());
    lemma_sorted_order(smallest_first(list), order);
    assert(order.contains((c as int) as usize));
    assert(order[order.index_of(c)] == c);
    lemma_smallest_is_chosen(list, order, order.len(), c);
    lemma_chosen_length(list, order, order.len());
    let keys = largest_first(list, chosen);
    lemma_sorted_order(keys, again);
    let k = chosen.index_of(c);
    assert(again.contains(k as usize));
    let i = again.index_of(k as usize);
    assert(selected[i] == c);
}

proof fn lemma_chosen_length(list: Seq<Candidate>, order: Seq<usize>, k: nat)
    ensures
        chosen_of(list, order, k).len() <= k,
    decreases k,
{
    if k > 0 {
        lemma_chosen_length(list, order, (k - 1) as nat);
    }
}

/// No two canonical regions share their entry edge or their exit edge, and they do not
/// cross one another. Each is the smallest at its boundary edges.
pub(crate) proof fn lemma_selection_laminar(list: Seq<Candidate>, selected: Seq<usize>)
    requires
        is_selection(list, selected),
        list.len() <= usize::MAX,
    ensures
        forall|i: int|
            0 <= i < selected.len() ==> #[trigger] selected[i] < list.len() && is_smallest(
                list,
                selected[i] as int,
            ),
        forall|i: int, j: int|
            0 <= i < selected.len() && 0 <= j < selected.len() && i != j ==> !shares_boundary(
                list[#[trigger] selected[i] as int],
                list[#[trigger] selected[j] as int],
            ) && is_laminar(list[selected[i] as int].nodes@, list[selected[j] as int].nodes@),
{
    let (order, again) = choose|order: Seq<usize>, again: Seq<usize>|
        {
            &&& #[trigger] is_sorted_order(smallest_first(list), order)
            &&& #[trigger] is_sorted_order(
                largest_first(list, chosen_of(list, order, order.len())),
                again,
            )
            &&& selected == again.map_values(|i: usize| chosen_of(list, order, order.len())[i as int])
        };
    let chosen = chosen_of(list, order, order.len());
    lemma_chosen_members(list, order, order.len());
    lemma_sorted_order(smallest_first(list), order);
    assert forall|i: int| 0 <= i < selected.len() implies #[trigger] selected[i] < list.len()
        && is_smallest(list, selected[i] as int) by {
        assert(again[i] < chosen.len());
        assert(selected[i] == chosen[again[i] as int]);
        lemma_chosen_smallest(list, order, order.len(), again[i] as int);
    }
    assert forall|i: int, j: int|
        0 <= i < selected.len() && 0 <= j < selected.len() && i != j implies !shares_boundary(
        list[#[trigger] selected[i] as int],
        list[#[trigger] selected[j] as int],
    ) && is_laminar(list[selected[i] as int].nodes@, list[selected[j] as int].nodes@) by {
        let (x, y) = (again[i] as int, again[j] as int);
        assert(x != y) by {
            let keys = largest_first(list, chosen);
            if i < j {
                assert(comes_before(keys, again[i], again[j]));
            } else {
                assert(comes_before(keys, again[j], again[i]));
            }
        }
        if x < y {
            lemma_chosen_once(list, order, order.len(), x, y);
        } else {
            lemma_chosen_once(list, order, order.len(), y, x);
        }
        let (a, b) = (selected[i] as int, selected[j] as int);
        assert(a == chosen[x] && b == chosen[y] && a != b);
        if shares_boundary(list[a], list[b]) {
            assert(shares_boundary(list[b], list[a]));
            assert(comes_before(smallest_first(list), selected[i], selected[j]));
            assert(comes_before(smallest_first(list), selected[j], selected[i]));
        }
        if x < y {
            lemma_chosen_compatible(list, order, order.len(), x, y);
            lemma_laminar_symmetric(list[selected[j] as int].nodes@, list[selected[i] as int].nodes@);
        } else {
            lemma_chosen_compatible(list, order, order.len(), y, x);
        }
    }
}

proof fn lemma_laminar_symmetric(a: Seq<usize>, b: Seq<usize>)
    requires
        is_laminar(a, b),
    ensures
        is_laminar(b, a),
{
    if overlaps(b, a) {
        let i = choose|i: int| 0 <= i < b.len() && a.contains(#[trigger] b[i]);
        let k = a.index_of(b[i]);
        assert(b.contains(a[k]));
    }
}

/// `ids` lists the nodes that can be reached from `root` in the order of their indices.
pub open spec fn lists_reachable_sorted<C: Cfg>(
    graph: &C,
    root: C::NodeId,
    ids: Seq<C::NodeId>,
) -> bool {
    &&& forall|i: int, j: int|
        0 <= i < j < ids.len() ==> (#[trigger] ids[i]).spec_index() < (
        #[trigger] ids[j]).spec_index()
    &&& forall|n: C::NodeId| #[trigger] ids.contains(n) <==> reaches(flow(graph), root, n)
}

/// The edges of `list` that lead between two different nodes of `ids`.
pub open spec fn inner_edges<G: Graph>(
    graph: &G,
    ids: Seq<G::NodeId>,
    list: Seq<G::EdgeId>,
) -> Seq<G::EdgeId>
    decreases list.len(),
{
    if list.len() == 0 {
        Seq::empty()
    } else {
        let rest = inner_edges(graph, ids, list.drop_last());
        let edge = list.last();
        if graph.spec_from(edge) != graph.spec_to(edge) && ids.contains(graph.spec_from(edge))
            && ids.contains(graph.spec_to(edge)) {
            rest.push(edge)
        } else {
            rest
        }
    }
}

/// No edge leaves the node `v`.
pub open spec fn is_dead_end(edges: Seq<IEdge>, v: int) -> bool {
    forall|i: int| #![trigger edges[i]] 0 <= i < edges.len() ==> edges[i].from != v
}

/// The dead ends among the first `v` nodes, each with an edge to `exit`.
pub open spec fn exit_edges(edges: Seq<IEdge>, exit: usize, v: nat) -> Seq<IEdge>
    decreases v,
{
    if v == 0 {
        Seq::empty()
    } else {
        let rest = exit_edges(edges, exit, (v - 1) as nat);
        if is_dead_end(edges, v - 1) {
            rest.push(IEdge { from: (v - 1) as usize, to: exit })
        } else {
            rest
        }
    }
}

/// The flow graph closed by a synthetic exit: every dead end leads to the exit, and the
/// exit, if something leads to it, leads back to the entry.
pub open spec fn closed_flow(edges: Seq<IEdge>, exit: usize, entry: usize) -> Seq<IEdge> {
    let exits = exit_edges(edges, exit, exit as nat);
    if exits.len() == 0 {
        edges
    } else {
        (edges + exits).push(IEdge { from: exit, to: entry })
    }
}

/// `edges` are the edges `originals` between the positions of their ends in `ids`.
pub open spec fn edges_between<G: Graph>(
    graph: &G,
    ids: Seq<G::NodeId>,
    originals: Seq<G::EdgeId>,
    edges: Seq<IEdge>,
) -> bool {
    &&& edges.len() == originals.len()
    &&& forall|i: int|
        #![trigger edges[i]]
        0 <= i < edges.len() ==> {
            &&& edges[i].from < ids.len()
            &&& edges[i].to < ids.len()
            &&& ids[edges[i].from as int] == graph.spec_from(originals[i])
            &&& ids[edges[i].to as int] == graph.spec_to(originals[i])
        }
}

/// The part of a graph that can be reached from a root, as a closed flow graph over the
/// positions of its nodes.
pub struct ClosedFlow<N, E> {
    pub ids: Vec<N>,
    pub originals: Vec<E>,
    pub edges: Vec<IEdge>,
    pub entry: usize,
}

impl<N: Identifier, E: Identifier> ClosedFlow<N, E> {
    pub open spec fn represents<G: Graph<NodeId = N, EdgeId = E>>(
        &self,
        graph: &G,
        root: N,
    ) -> bool {
        &&& lists_reachable_sorted(graph, root, self.ids@)
        &&& self.originals@ == inner_edges(graph, self.ids@, graph.spec_edges())
        &&& self.entry < self.ids@.len()
        &&& self.ids@[self.entry as int] == root
        &&& self.ids@.len() < usize::MAX
        &&& ends_below(self.edges@, (self.ids@.len() + 1) as int)
        &&& self.originals@.len() <= self.edges@.len()
        &&& edges_between(
            graph,
            self.ids@,
            self.originals@,
            self.edges@.subrange(0, self.originals@.len() as int),
        )
        &&& self.edges@ == closed_flow(
            self.edges@.subrange(0, self.originals@.len() as int),
            self.ids@.len() as usize,
            self.entry,
        )
    }
}

proof fn lemma_exit_edges(edges: Seq<IEdge>, exit: usize, v: nat)
    requires
        v <= exit,
    ensures
        forall|i: int|
            #![trigger exit_edges(edges, exit, v)[i]]
            0 <= i < exit_edges(edges, exit, v).len() ==> exit_edges(edges, exit, v)[i].from < v
                && exit_edges(edges, exit, v)[i].to == exit,
    decreases v,
{
    if v > 0 {
        lemma_exit_edges(edges, exit, (v - 1) as nat);
        let rest = exit_edges(edges, exit, (v - 1) as nat);
        assert forall|i: int|
            #![trigger exit_edges(edges, exit, v)[i]]
            0 <= i < exit_edges(edges, exit, v).len() implies exit_edges(edges, exit, v)[i].from < v
            && exit_edges(edges, exit, v)[i].to == exit by {
            if i < rest.len() {
                assert(rest[i].from < v - 1);
            }
        }
    }
}

/// Lists identifiers in the order of their indices.
pub(crate) fn sort_ids<Id: Identifier>(ids: &Vec<Id>) -> (sorted: Vec<Id>)
    requires
        ids@.no_duplicates(),
    ensures
        sorted@.len() == ids@.len(),
        forall|i: int, j: int|
            0 <= i < j < sorted@.len() ==> (#[trigger] sorted@[i]).spec_index() < (
            #[trigger] sorted@[j]).spec_index(),
        forall|n: Id| #[trigger] sorted@.contains(n) <==> ids@.contains(n),
{
    let mut keys: Vec<Key> = Vec::new();
    for i in 0..ids.len()
        invariant
            keys@.len() == i,
            forall|k: int| 0 <= k < i ==> #[trigger] keys@[k] == (ids@[k].spec_index(), 0usize, 0usize),
    {
        keys.push((ids[i].to_usize(), 0, 0));
    }
    let order = sorted_order(&keys);
    let mut sorted: Vec<Id> = Vec::new();
    for i in 0..order.len()
        invariant
            keys@.len() == ids@.len(),
            is_sorted_order(keys@, order@),
            sorted@.len() == i,
            forall|k: int| 0 <= k < i ==> #[trigger] sorted@[k] == ids@[order@[k] as int],
    {
        sorted.push(ids[order[i]]);
    }
    proof {
        lemma_sorted_order(keys@, order@);
        assert forall|i: int, j: int| 0 <= i < j < sorted@.len() implies (
        #[trigger] sorted@[i]).spec_index() < (#[trigger] sorted@[j]).spec_index() by {
            assert(comes_before(keys@, order@[i], order@[j]));
            assert(order@[i] != order@[j]);
            lemma_id_injective(ids@[order@[i] as int], ids@[order@[j] as int]);
            assert(keys@[order@[i] as int].0 == sorted@[i].spec_index());
            assert(keys@[order@[j] as int].0 == sorted@[j].spec_index());
        }
        assert forall|n: Id| #[trigger] sorted@.contains(n) <==> ids@.contains(n) by {
            if sorted@.contains(n) {
                let k = sorted@.index_of(n);
                assert(ids@[order@[k] as int] == n);
            }
            if ids@.contains(n) {
                let i = ids@.index_of(n);
                assert(order@.contains(i as usize));
                let k = order@.index_of(i as usize);
                assert(sorted@[k] == n);
            }
        }
    }
    sorted
}

/// Edges lead from nodes to nodes.
pub(crate) proof fn lemma_reached_is_node<G: Graph>(graph: &G, root: G::NodeId, n: G::NodeId)
    requires
        is_navigable(graph),
        graph.spec_nodes().contains(root),
        reaches(flow(graph), root, n),
    ensures
        graph.spec_nodes().contains(n),
{
    let (e, nodes) = (flow(graph), graph.spec_nodes());
    let p = choose|p: Seq<G::NodeId>| walk_between(e, p, root, n);
    assert forall|k: int, b: G::NodeId| 0 <= k < nodes.len() && #[trigger] e(
        nodes[k],
        b,
    ) implies nodes.contains(b) by {
        let node = nodes[k];
        assert(nodes.contains(node));
        let items = relations::<ChildMode, G>(graph, node, graph.spec_incident(node));
        lemma_relations::<ChildMode, G>(graph, node, graph.spec_incident(node));
        let all = neighbours::<ChildMode, G>(graph, node);
        let i = all.index_of(b);
        let (edge, other) = items[i];
        assert(items.contains((edge, other)));
        assert(graph.spec_incident(node).contains(edge));
    }
    lemma_walk_stays(e, nodes, p, p.len() - 1);
}

/// Distinct members of a list are no more than the list is long.
pub(crate) proof fn lemma_sublist_length<T>(sub: Seq<T>, list: Seq<T>)
    requires
        sub.no_duplicates(),
        forall|i: int| 0 <= i < sub.len() ==> list.contains(#[trigger] sub[i]),
    ensures
        sub.len() <= list.len(),
{
    sub.unique_seq_to_set();
    list.lemma_cardinality_of_set();
    assert(sub.to_set().subset_of(list.to_set()));
    vstd::set_lib::lemma_len_subset(sub.to_set(), list.to_set());
}

/// Builds the closed flow graph of what can be reached from `root`.
#[verifier::rlimit(40)]
pub(crate) fn build_flow<G: Graph>(graph: &G, root: G::NodeId) -> (closed: ClosedFlow<
    G::NodeId,
    G::EdgeId,
>)
    requires
        is_navigable(graph),
        graph.spec_nodes().len() < usize::MAX,
    ensures
        closed.represents(graph, root),
{
    let reached = reachable_from_root(graph, root);
    let ids = sort_ids(&reached);
    proof {
        assert(reached@.contains(reached@[0]));
        assert(ids@.no_duplicates());
        if graph.spec_nodes().contains(root) {
            assert forall|i: int| 0 <= i < ids@.len() implies graph.spec_nodes().contains(
                #[trigger] ids@[i],
            ) by {
                assert(ids@.contains(ids@[i]));
                lemma_reached_is_node(graph, root, ids@[i]);
            }
            lemma_sublist_length(ids@, graph.spec_nodes());
        } else {
            // Nothing but itself can be reached from what is no node.
            assert forall|i: int| 0 <= i < ids@.len() implies seq![root].contains(
                #[trigger] ids@[i],
            ) by {
                assert(ids@.contains(ids@[i]));
                let (e, end) = (flow(graph), ids@[i]);
                let p = choose|p: Seq<G::NodeId>| walk_between(e, p, root, end);
                if p.len() > 1 {
                    assert(step_at(e, p, 0));
                    assert(neighbours::<ChildMode, G>(graph, root).contains(p[1]));
                }
                assert(seq![root][0] == end);
            }
            lemma_sublist_length(ids@, seq![root]);
        }
    }
    let index = index_ids(&ids);
    let entry: usize = match position(&index, Ghost(ids@), root) {
        Some(i) => i,
        None => {
            assert(ids@.contains(root));
            0
        },
    };
    let m: usize = ids.len();
    let all = graph.edge_ids();
    let mut originals: Vec<G::EdgeId> = Vec::new();
    let mut edges: Vec<IEdge> = Vec::new();
    for i in 0..all.len()
        invariant
            is_navigable(graph),
            all@ == graph.spec_edges(),
            numbers_list(index@, ids@),
            originals@ == inner_edges(graph, ids@, all@.subrange(0, i as int)),
            edges_between(graph, ids@, originals@, edges@),
    {
        let edge = all[i];
        assert(graph.spec_edges().contains(edge));
        assert(all@.subrange(0, i + 1).drop_last() =~= all@.subrange(0, i as int));
        let from = graph.source(edge);
        let to = graph.target(edge);
        if !same_id(from, to) {
            let at_from = position(&index, Ghost(ids@), from);
            let at_to = position(&index, Ghost(ids@), to);
            match (at_from, at_to) {
                (Some(a), Some(b)) => {
                    assert(ids@.contains(from) && ids@.contains(to)) by {
                        assert(ids@[a as int] == from && ids@[b as int] == to);
                    }
                    originals.push(edge);
                    edges.push(IEdge { from: a, to: b });
                },
                _ => {},
            }
        }
    }
    assert(all@.subrange(0, all@.len() as int) =~= all@);
    let ghost inner = edges@;
    let count: usize = edges.len();
    let mut dead: Vec<bool> = Vec::new();
    for v in 0..m
        invariant
            dead@.len() == v,
            forall|x: int| 0 <= x < v ==> #[trigger] dead@[x],
    {
        dead.push(true);
    }
    for i in 0..count
        invariant
            edges@ == inner,
            count == inner.len(),
            m == ids@.len(),
            dead@.len() == m,
            edges_between(graph, ids@, originals@, inner),
            forall|x: int|
                0 <= x < m ==> (#[trigger] dead@[x] <==> is_dead_end(inner.subrange(0, i as int), x)),
    {
        let from: usize = edges[i].from;
        assert(inner[i as int].from < m);
        dead.set(from, false);
        proof {
            assert forall|x: int| 0 <= x < m implies (#[trigger] dead@[x] <==> is_dead_end(
                inner.subrange(0, i + 1),
                x,
            )) by {
                let (a, b) = (inner.subrange(0, i as int), inner.subrange(0, i + 1));
                if is_dead_end(b, x) {
                    assert forall|k: int| #![trigger a[k]] 0 <= k < a.len() implies a[k].from != x by {
                        assert(b[k].from != x);
                    }
                    assert(b[i as int].from != x);
                }
                if dead@[x] {
                    assert(is_dead_end(a, x));
                    assert forall|k: int| #![trigger b[k]] 0 <= k < b.len() implies b[k].from != x by {
                        if k < i {
                            assert(a[k].from != x);
                        }
                    }
                }
            }
        }
    }
    assert(inner.subrange(0, count as int) =~= inner);
    let ghost exits = exit_edges(inner, m, m as nat);
    for v in 0..m
        invariant
            m == ids@.len(),
            dead@.len() == m,
            forall|x: int| 0 <= x < m ==> (#[trigger] dead@[x] <==> is_dead_end(inner, x)),
            edges@ == inner + exit_edges(inner, m, v as nat),
    {
        if dead[v] {
            edges.push(IEdge { from: v, to: m });
        }
        assert(edges@ =~= inner + exit_edges(inner, m, (v + 1) as nat));
    }
    if edges.len() > count {
        edges.push(IEdge { from: m, to: entry });
    }
    proof {
        lemma_exit_edges(inner, m, m as nat);
        assert(edges@.subrange(0, count as int) =~= inner);
        assert(edges@ =~= closed_flow(inner, m, entry));
        assert forall|i: int| #![trigger edges@[i]] 0 <= i < edges@.len() implies edges@[i].from < m + 1
            && edges@[i].to < m + 1 by {
            if i < count {
                assert(inner[i].from < m);
            } else if i < count + exits.len() {
                assert(edges@[i] == exits[i - count]);
            }
        }
    }
    ClosedFlow { ids, originals, edges, entry }
}

/// One canonical edge-based SESE region.
pub struct SeseRegion<NodeId, EdgeId> {
    /// Parent region; `None` only for the synthetic root region.
    pub parent: Option<usize>,
    /// Immediate child regions, in deterministic entry-edge order.
    pub children: Vec<usize>,
    /// Boundary edge entering this region (`None` for the root region).
    pub entry_edge: Option<EdgeId>,
    /// Boundary edge leaving this region (`None` for the root region).
    pub exit_edge: Option<EdgeId>,
    /// Nodes owned directly by this region (children are not repeated here).
    pub nodes: Vec<NodeId>,
    /// All original nodes contained by the region, including descendants.
    pub contained_nodes: Vec<NodeId>,
}

/// Program-structure tree for the nodes reachable from an entry.
pub struct SeseTree<NodeId, EdgeId> {
    pub regions: Vec<SeseRegion<NodeId, EdgeId>>,
}

impl<NodeId, EdgeId> SeseTree<NodeId, EdgeId> {
    pub fn root(&self) -> (region: &SeseRegion<NodeId, EdgeId>)
        requires
            self.regions@.len() > 0,
        ensures
            *region == self.regions@[0],
    {
        &self.regions[0]
    }

    pub fn has_nontrivial_regions(&self) -> (b: bool)
        ensures
            b == (self.regions@.len() > 1),
    {
        self.regions.len() > 1
    }
}

/// A region between two boundary edges, before the canonical ones are chosen.
pub struct SeseCandidate<NodeId, EdgeId> {
    pub contained_nodes: Vec<NodeId>,
    pub entry_edge: EdgeId,
    pub exit_edge: EdgeId,
}

/// The identifiers at the positions `places`.
pub open spec fn picked<Id>(ids: Seq<Id>, places: Seq<usize>) -> Seq<Id> {
    places.map_values(|i: usize| ids[i as int])
}

pub(crate) fn pick<Id: Copy>(ids: &Vec<Id>, places: &Vec<usize>) -> (list: Vec<Id>)
    requires
        forall|i: int| 0 <= i < places@.len() ==> #[trigger] places@[i] < ids@.len(),
    ensures
        list@ == picked(ids@, places@),
{
    let mut list: Vec<Id> = Vec::new();
    for i in 0..places.len()
        invariant
            forall|i: int| 0 <= i < places@.len() ==> #[trigger] places@[i] < ids@.len(),
            list@ == picked(ids@, places@.subrange(0, i as int)),
    {
        list.push(ids[places[i]]);
        assert(list@ =~= picked(ids@, places@.subrange(0, i + 1)));
    }
    assert(places@.subrange(0, places@.len() as int) =~= places@);
    list
}

/// `list` are the candidates of a closed flow graph.
pub open spec fn candidates_of<N, E>(closed: ClosedFlow<N, E>, list: Seq<Candidate>) -> bool {
    list.len() <= usize::MAX && lists_candidates(
        closed.edges@,
        (closed.ids@.len() + 1) as int,
        closed.entry as int,
        closed.ids@.len() as int,
        closed.originals@.len() as usize,
        list,
        closed.originals@.len() as usize,
        0,
    )
}

/// A candidate in terms of the graph.
pub open spec fn is_candidate<N, E>(
    closed: ClosedFlow<N, E>,
    dense: Candidate,
    candidate: SeseCandidate<N, E>,
) -> bool {
    &&& candidate.contained_nodes@ == picked(closed.ids@, dense.nodes@)
    &&& candidate.entry_edge == closed.originals@[dense.entry as int]
    &&& candidate.exit_edge == closed.originals@[dense.exit as int]
}

/// `found` are all the regions between two boundary edges of what can be reached from
/// `root`, in the order of their entry and then of their exit edges.
pub open spec fn is_candidate_list<G: Graph>(
    graph: &G,
    root: G::NodeId,
    found: Seq<SeseCandidate<G::NodeId, G::EdgeId>>,
) -> bool {
    exists|closed: ClosedFlow<G::NodeId, G::EdgeId>, list: Seq<Candidate>|
        {
            &&& #[trigger] closed.represents(graph, root)
            &&& #[trigger] candidates_of(closed, list)
            &&& found.len() == list.len()
            &&& forall|i: int|
                0 <= i < found.len() ==> is_candidate(closed, list[i], #[trigger] found[i])
        }
}

/// Enumerates the edge-based regions among which [`compute_sese`] chooses.
pub fn compute_sese_candidates<G: Graph>(graph: &G, root: G::NodeId) -> (found: Vec<
    SeseCandidate<G::NodeId, G::EdgeId>,
>)
    requires
        is_navigable(graph),
        graph.spec_nodes().len() < usize::MAX,
    ensures
        is_candidate_list(graph, root, found@),
{
    let closed = build_flow(graph, root);
    let m: usize = closed.ids.len();
    let list = raw_candidates(&closed.edges, m + 1, closed.entry, m, closed.originals.len());
    let total: usize = list.len();
    let mut found: Vec<SeseCandidate<G::NodeId, G::EdgeId>> = Vec::new();
    for i in 0..list.len()
        invariant
            m == closed.ids@.len(),
            candidates_of(closed, list@),
            found@.len() == i,
            forall|k: int| 0 <= k < i ==> is_candidate(closed, list@[k], #[trigger] found@[k]),
    {
        let dense = &list[i];
        proof {
            lemma_region_bounds(closed, list@, i as int);
        }
        found.push(
            SeseCandidate {
                contained_nodes: pick(&closed.ids, &dense.nodes),
                entry_edge: closed.originals[dense.entry],
                exit_edge: closed.originals[dense.exit],
            },
        );
    }
    assert(closed.represents(graph, root) && candidates_of(closed, list@));
    found
}

proof fn lemma_region_bounds<N, E>(closed: ClosedFlow<N, E>, list: Seq<Candidate>, i: int)
    requires
        candidates_of(closed, list),
        0 <= i < list.len(),
    ensures
        forall|k: int|
            0 <= k < list[i].nodes@.len() ==> #[trigger] list[i].nodes@[k] < closed.ids@.len(),
        list[i].entry < closed.originals@.len() as usize,
        list[i].exit < closed.originals@.len() as usize,
        is_increasing(list[i].nodes@),
{
    assert forall|k: int| 0 <= k < list[i].nodes@.len() implies #[trigger] list[i].nodes@[k]
        < closed.ids@.len() by {
        assert(list[i].nodes@.contains(list[i].nodes@[k]));
    }
}

/// The sets of nodes of the regions: everything, and then the selected candidates.
pub open spec fn region_sets(
    m: int,
    list: Seq<Candidate>,
    selected: Seq<usize>,
    sets: Seq<Vec<usize>>,
) -> bool {
    &&& sets.len() == selected.len() + 1
    &&& sets[0]@.len() == m
    &&& forall|v: int| 0 <= v < m ==> #[trigger] sets[0]@[v] == v
    &&& forall|i: int|
        1 <= i < sets.len() ==> (#[trigger] sets[i])@ == list[selected[i - 1] as int].nodes@
}

/// The tree of a closed flow graph.
pub open spec fn is_tree_of<N, E>(
    closed: ClosedFlow<N, E>,
    list: Seq<Candidate>,
    selected: Seq<usize>,
    sets: Seq<Vec<usize>>,
    parent: Seq<usize>,
    children: Seq<Vec<usize>>,
    owned: Seq<Vec<usize>>,
    regions: Seq<SeseRegion<N, E>>,
) -> bool {
    &&& is_selection(list, selected)
    &&& region_sets(closed.ids@.len() as int, list, selected, sets)
    &&& is_nesting(sets, parent, children)
    &&& is_ownership(sets, 0, closed.ids@.len() as int, owned)
    &&& regions.len() == sets.len()
    &&& forall|r: int|
        #![trigger regions[r]]
        0 <= r < regions.len() ==> {
            &&& regions[r].parent == if r == 0 {
                None
            } else {
                Some(parent[r])
            }
            &&& regions[r].children@ == children[r]@
            &&& regions[r].entry_edge == if r == 0 {
                None
            } else {
                Some(closed.originals@[list[selected[r - 1] as int].entry as int])
            }
            &&& regions[r].exit_edge == if r == 0 {
                None
            } else {
                Some(closed.originals@[list[selected[r - 1] as int].exit as int])
            }
            &&& regions[r].nodes@ == picked(closed.ids@, owned[r]@)
            &&& regions[r].contained_nodes@ == picked(closed.ids@, sets[r]@)
        }
}

/// `tree` is the program-structure tree of what can be reached from `root`: its regions
/// are the root region and the canonical regions, the largest first; each hangs below the
/// smallest earlier region that contains it; and each node belongs to the smallest region
/// that contains it.
pub open spec fn is_sese_tree<G: Graph>(
    graph: &G,
    root: G::NodeId,
    tree: SeseTree<G::NodeId, G::EdgeId>,
) -> bool {
    exists|
        closed: ClosedFlow<G::NodeId, G::EdgeId>,
        list: Seq<Candidate>,
        selected: Seq<usize>,
        sets: Seq<Vec<usize>>,
        parent: Seq<usize>,
        children: Seq<Vec<usize>>,
        owned: Seq<Vec<usize>>,
    |
        {
            &&& #[trigger] closed.represents(graph, root)
            &&& candidates_of(closed, list)
            &&& #[trigger] is_tree_of(
                closed,
                list,
                selected,
                sets,
                parent,
                children,
                owned,
                tree.regions@,
            )
        }
}

/// Identifies canonical SESE regions in the directed subgraph reachable from
/// `root`. Multiple exits are joined to an internal synthetic exit. Self-loops
/// do not form region boundaries. From a root that is no node nothing else is reached.
#[verifier::rlimit(40)]
pub fn compute_sese<G: Graph>(graph: &G, root: G::NodeId) -> (tree: SeseTree<G::NodeId, G::EdgeId>)
    requires
        is_navigable(graph),
        graph.spec_nodes().len() < usize::MAX,
    ensures
        is_sese_tree(graph, root, tree),
{
    let closed = build_flow(graph, root);
    let m: usize = closed.ids.len();
    let list = raw_candidates(&closed.edges, m + 1, closed.entry, m, closed.originals.len());
    let total: usize = list.len();
    let selected = select_canonical(&list);
    proof {
        lemma_selection_laminar(list@, selected@);
    }
    let mut all: Vec<usize> = Vec::new();
    for v in 0..m
        invariant
            all@.len() == v,
            forall|x: int| 0 <= x < v ==> #[trigger] all@[x] == x,
    {
        all.push(v);
    }
    let mut sets: Vec<Vec<usize>> = Vec::new();
    sets.push(all);
    for i in 0..selected.len()
        invariant
            m == closed.ids@.len(),
            candidates_of(closed, list@),
            forall|i: int| 0 <= i < selected@.len() ==> #[trigger] selected@[i] < list@.len(),
            sets@.len() == i + 1,
            sets@[0]@.len() == m,
            forall|v: int| 0 <= v < m ==> #[trigger] sets@[0]@[v] == v,
            forall|k: int|
                1 <= k < sets@.len() ==> (#[trigger] sets@[k])@ == list@[selected@[k - 1] as int].nodes@,
    {
        let nodes = copy_list(&list[selected[i]].nodes);
        sets.push(nodes);
    }
    proof {
        assert forall|i: int| 0 <= i < sets@.len() implies holds_all(
            sets@[0]@,
            (#[trigger] sets@[i])@,
        ) && forall|k: int| 0 <= k < sets@[i]@.len() ==> #[trigger] sets@[i]@[k] < m by {
            if i > 0 {
                lemma_region_bounds(closed, list@, selected@[i - 1] as int);
            }
            assert forall|k: int| 0 <= k < sets@[i]@.len() implies sets@[0]@.contains(
                #[trigger] sets@[i]@[k],
            ) && sets@[i]@[k] < m by {
                assert(sets@[0]@[sets@[i]@[k] as int] == sets@[i]@[k]);
            }
        }
    }
    let (parent, children) = nest(&sets);
    let owned = assign_owners(&sets, 0, m);
    let mut regions: Vec<SeseRegion<G::NodeId, G::EdgeId>> = Vec::new();
    for r in 0..sets.len()
        invariant
            m == closed.ids@.len(),
            candidates_of(closed, list@),
            sets@.len() == selected@.len() + 1,
            forall|i: int| 0 <= i < selected@.len() ==> #[trigger] selected@[i] < list@.len(),
            is_nesting(sets@, parent@, children@),
            is_ownership(sets@, 0, m as int, owned@),
            forall|i: int, k: int|
                0 <= i < sets@.len() && 0 <= k < sets@[i]@.len() ==> #[trigger] sets@[i]@[k] < m,
            regions@.len() == r,
            forall|q: int|
                #![trigger regions@[q]]
                0 <= q < r ==> {
                    &&& regions@[q].parent == if q == 0 {
                        None
                    } else {
                        Some(parent@[q])
                    }
                    &&& regions@[q].children@ == children@[q]@
                    &&& regions@[q].entry_edge == if q == 0 {
                        None
                    } else {
                        Some(closed.originals@[list@[selected@[q - 1] as int].entry as int])
                    }
                    &&& regions@[q].exit_edge == if q == 0 {
                        None
                    } else {
                        Some(closed.originals@[list@[selected@[q - 1] as int].exit as int])
                    }
                    &&& regions@[q].nodes@ == picked(closed.ids@, owned@[q]@)
                    &&& regions@[q].contained_nodes@ == picked(closed.ids@, sets@[q]@)
                },
    {
        let mut boundary: (Option<usize>, Option<G::EdgeId>, Option<G::EdgeId>) = (None, None, None);
        if r > 0 {
            proof {
                lemma_region_bounds(closed, list@, selected@[r - 1] as int);
            }
            let c = &list[selected[r - 1]];
            boundary = (
                Some(parent[r]),
                Some(closed.originals[c.entry]),
                Some(closed.originals[c.exit]),
            );
        }
        assert forall|k: int| 0 <= k < owned@[r as int]@.len() implies #[trigger] owned@[r as int]@[k] < m by {
            assert(owned@[r as int]@.contains(owned@[r as int]@[k]));
        }
        regions.push(
            SeseRegion {
                parent: boundary.0,
                children: copy_list(&children[r]),
                entry_edge: boundary.1,
                exit_edge: boundary.2,
                nodes: pick(&closed.ids, &owned[r]),
                contained_nodes: pick(&closed.ids, &sets[r]),
            },
        );
    }
    let tree = SeseTree { regions };
    proof {
        assert(closed.represents(graph, root));
        assert(candidates_of(closed, list@));
        assert(is_tree_of(
            closed,
            list@,
            selected@,
            sets@,
            parent@,
            children@,
            owned@,
            tree.regions@,
        ));
    }
    tree
}

pub(crate) fn copy_list(list: &Vec<usize>) -> (copy: Vec<usize>)
    ensures
        copy@ == list@,
{
    let mut copy: Vec<usize> = Vec::new();
    for i in 0..list.len()
        invariant
            copy@ == list@.subrange(0, i as int),
    {
        copy.push(list[i]);
        assert(copy@ =~= list@.subrange(0, i + 1));
    }
    assert(copy@ =~= list@);
    copy
}

} // verus!
