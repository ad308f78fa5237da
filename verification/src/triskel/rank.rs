//! Rank (layer) assignment via a network simplex.
//!
//! Works on an acyclic graph without self-loops and finds a non-negative rank for
//! every node. Each edge contributes `weight * slack` to the total cost, where
//! `slack(e) = rank(head) - rank(tail) - minlen(e)`; the simplex exchanges tree edges
//! to lower the total cost, which yields compact, balanced layerings (unlike plain
//! longest-path, which is merely the feasible starting point).
use crate::counting::{count_true, lemma_count_bound, lemma_count_set};
use crate::fx;
use crate::graph::walk::{
    is_walk, lemma_extend, lemma_part, lemma_reaches_transitive, lemma_simple_walk,
    lemma_trivial_walk, reaches,
    step_at, walk_between,
};
use crate::graph::edge::Edge;
use crate::graph::owning::EdgeEntry;
use crate::graph::Graph;
use crate::indexing::{index_ids, numbers_list, position};
use crate::registry::Identifier;
use crate::triskel::cycle::{is_acyclic, numbers_forward};
use crate::triskel::layout_graph::{
    lists_edges, lists_nodes, state_of, EdgeLayoutData, LayoutGraph, LayoutState, NodeLayoutData,
};
use crate::triskel::simplex::{
    backward, border, centres_at, closes_in, edges_at, gives_way, is_balancing, is_centred,
    is_cheapest, is_earliest, is_flood, is_latest, is_leaving, is_run, is_settled, is_shifting,
    is_simplex, is_spanning, is_tightest, is_tree, law_simplex_finds_the_cheapest,
    lemma_next_exchange, lemma_next_flood, lemma_next_shift, lemma_same_flood, lemma_some_backward,
    lemma_tail_apart, lemma_tree_exchange, lemma_tree_grows, most_exchanges, part_moved, spread,
    tight_part, weight_in, weight_out, Basis, Flooding, Simplex,
};
use rustc_hash::{FxHashMap, FxHashSet};
use vstd::prelude::*;

verus! {

/// An edge between two numbered nodes that spans at least `minlen` ranks.
#[derive(Clone, Copy, PartialEq, Eq, Structural)]
pub struct RankEdge {
    pub tail: usize,
    pub head: usize,
    pub minlen: i64,
    pub weight: i64,
}

/// How much longer an edge is than it has to be.
pub open spec fn spec_slack(edge: RankEdge, rank: Seq<i64>) -> int {
    rank[edge.head as int] - rank[edge.tail as int] - edge.minlen
}

/// No edge is too short.
pub open spec fn is_feasible(edges: Seq<RankEdge>, rank: Seq<i64>) -> bool {
    forall|i: int| 0 <= i < edges.len() ==> spec_slack(#[trigger] edges[i], rank) >= 0
}

/// The longest minimal length.
pub open spec fn longest(edges: Seq<RankEdge>) -> int
    decreases edges.len(),
{
    if edges.len() == 0 {
        0
    } else {
        let rest = longest(edges.drop_last());
        if edges.last().minlen > rest {
            edges.last().minlen as int
        } else {
            rest
        }
    }
}

proof fn lemma_longest(edges: Seq<RankEdge>)
    ensures
        longest(edges) >= 0,
        forall|i: int| 0 <= i < edges.len() ==> (#[trigger] edges[i]).minlen <= longest(edges),
    decreases edges.len(),
{
    if edges.len() > 0 {
        lemma_longest(edges.drop_last());
        assert forall|i: int| 0 <= i < edges.len() implies (#[trigger] edges[i]).minlen <= longest(
            edges,
        ) by {
            if i < edges.len() - 1 {
                assert(edges.drop_last()[i] == edges[i]);
            }
        }
    }
}

/// The total weight of the edges.
pub open spec fn total_weight(edges: Seq<RankEdge>) -> int
    decreases edges.len(),
{
    if edges.len() == 0 {
        0
    } else {
        total_weight(edges.drop_last()) + edges.last().weight
    }
}

/// The edges lead between `n` nodes, lengths and weights are not negative, and ranks and
/// weights stay well inside the machine integers.
pub open spec fn is_rankable(n: int, edges: Seq<RankEdge>) -> bool {
    &&& forall|i: int|
        #![trigger edges[i]]
        0 <= i < edges.len() ==> edges[i].tail < n && edges[i].head < n && edges[i].tail
            != edges[i].head && edges[i].minlen >= 0 && edges[i].weight >= 0
    &&& n * longest(edges) <= 0x0800_0000_0000_0000
    &&& total_weight(edges) <= 0x7fff_ffff_ffff_ffff
}

/// Edges lead from lower to higher numbers.
pub open spec fn leads_forward(edges: Seq<RankEdge>, number: Seq<int>) -> bool {
    forall|i: int|
        #![trigger edges[i]]
        0 <= i < edges.len() ==> number[edges[i].tail as int] < number[edges[i].head as int]
}

/// The nodes can be numbered so that edges lead forward.
pub open spec fn has_no_cycle(n: int, edges: Seq<RankEdge>) -> bool {
    exists|number: Seq<int>| number.len() == n && #[trigger] leads_forward(edges, number)
}

impl RankEdge {
    pub fn slack(&self, rank: &Vec<i64>) -> (slack: i64)
        requires
            self.head < rank@.len(),
            self.tail < rank@.len(),
            i64::MIN <= rank@[self.head as int] - rank@[self.tail as int] <= i64::MAX,
            i64::MIN <= spec_slack(*self, rank@) <= i64::MAX,
        ensures
            slack == spec_slack(*self, rank@),
    {
        rank[self.head] - rank[self.tail] - self.minlen
    }
}

/// Every node sits as early as its predecessors allow.
pub open spec fn is_longest_path(n: int, edges: Seq<RankEdge>, rank: Seq<i64>) -> bool {
    &&& rank.len() == n
    &&& is_feasible(edges, rank)
    &&& forall|v: int|
        #![trigger rank[v]]
        0 <= v < n ==> rank[v] >= 0 && (rank[v] == 0 || exists|i: int|
            0 <= i < edges.len() && (#[trigger] edges[i]).head == v && spec_slack(edges[i], rank)
                == 0)
}

/// A node that is not done and whose predecessors are done.
spec fn is_ready(edges: Seq<RankEdge>, done: Seq<bool>, v: int) -> bool {
    !done[v] && forall|i: int|
        #![trigger edges[i]]
        0 <= i < edges.len() && edges[i].head == v ==> done[edges[i].tail as int]
}

/// Where something is left to do in a graph without cycles, a node is ready.
proof fn lemma_some_ready(n: int, edges: Seq<RankEdge>, done: Seq<bool>, number: Seq<int>, v: int) -> (ready:
    int)
    requires
        done.len() == n,
        number.len() == n,
        leads_forward(edges, number),
        forall|i: int| #![trigger edges[i]] 0 <= i < edges.len() ==> edges[i].tail < n && edges[i].head < n,
        0 <= v < n,
        !done[v],
    ensures
        0 <= ready < n,
        is_ready(edges, done, ready),
    decreases number[v] - lowest(number),
{
    lemma_lowest(number);
    if is_ready(edges, done, v) {
        v
    } else {
        let i = choose|i: int|
            0 <= i < edges.len() && (#[trigger] edges[i]).head == v && !done[edges[i].tail as int];
        assert(number[edges[i].tail as int] < number[edges[i].head as int]);
        lemma_some_ready(n, edges, done, number, edges[i].tail as int)
    }
}

spec fn lowest(number: Seq<int>) -> int
    decreases number.len(),
{
    if number.len() == 0 {
        0
    } else {
        let rest = lowest(number.drop_last());
        if number.last() < rest {
            number.last()
        } else {
            rest
        }
    }
}

proof fn lemma_lowest(number: Seq<int>)
    ensures
        forall|i: int| 0 <= i < number.len() ==> lowest(number) <= #[trigger] number[i],
    decreases number.len(),
{
    if number.len() > 0 {
        lemma_lowest(number.drop_last());
        assert forall|i: int| 0 <= i < number.len() implies lowest(number) <= #[trigger] number[i] by {
            if i < number.len() - 1 {
                assert(number.drop_last()[i] == number[i]);
            }
        }
    }
}

/// Longest-path feasible ranking: every node sits as early as its predecessors
/// allow. Always feasible because the graph is acyclic.
#[verifier::rlimit(40)]
pub fn init_rank(n: usize, edges: &Vec<RankEdge>) -> (rank: Vec<i64>)
    requires
        is_rankable(n as int, edges@),
        has_no_cycle(n as int, edges@),
    ensures
        is_longest_path(n as int, edges@, rank@),
        forall|v: int| 0 <= v < n ==> #[trigger] rank@[v] <= n * longest(edges@),
{
    let ghost far = longest(edges@);
    let ghost number = choose|number: Seq<int>|
        number.len() == n && #[trigger] leads_forward(edges@, number);
    proof {
        lemma_longest(edges@);
    }
    let mut rank: Vec<i64> = Vec::new();
    let mut done: Vec<bool> = Vec::new();
    for v in 0..n
        invariant
            rank@.len() == v,
            done@.len() == v,
            forall|x: int| 0 <= x < v ==> #[trigger] rank@[x] == 0,
            forall|x: int| 0 <= x < v ==> !#[trigger] done@[x],
    {
        rank.push(0);
        done.push(false);
    }
    proof {
        lemma_none_done(done@);
    }
    for round in 0..n
        invariant
            is_rankable(n as int, edges@),
            far == longest(edges@),
            far >= 0,
            forall|i: int| 0 <= i < edges@.len() ==> (#[trigger] edges@[i]).minlen <= far,
            number.len() == n,
            leads_forward(edges@, number),
            rank@.len() == n,
            done@.len() == n,
            count_true(done@) == round,
            forall|v: int|
                #![trigger rank@[v]]
                0 <= v < n ==> 0 <= rank@[v] <= round * far,
            forall|v: int|
                #![trigger done@[v]]
                0 <= v < n && done@[v] ==> rank@[v] == 0 || exists|i: int|
                    0 <= i < edges@.len() && (#[trigger] edges@[i]).head == v && spec_slack(
                        edges@[i],
                        rank@,
                    ) == 0 && done@[edges@[i].tail as int],
            forall|i: int|
                #![trigger edges@[i]]
                0 <= i < edges@.len() && done@[edges@[i].head as int] ==> done@[edges@[i].tail as int]
                    && spec_slack(edges@[i], rank@) >= 0,
            forall|v: int| 0 <= v < n && !done@[v] ==> #[trigger] rank@[v] == 0,
    {
        let v = find_ready(n, edges, &done, Ghost(number));
        let ghost before = rank@;
        let ghost done0 = done@;
        let mut best: i64 = 0;
        assert(round * far + far <= n * far) by (nonlinear_arith)
            requires
                round < n,
                far >= 0,
        ;
        for i in 0..edges.len()
            invariant
                is_rankable(n as int, edges@),
                far >= 0,
                forall|i: int| 0 <= i < edges@.len() ==> (#[trigger] edges@[i]).minlen <= far,
                rank@ == before,
                done@ == done0,
                before.len() == n,
                done0.len() == n,
                v < n,
                is_ready(edges@, done0, v as int),
                round * far + far <= n * far <= 0x0800_0000_0000_0000,
                forall|x: int|
                    #![trigger before[x]]
                    0 <= x < n ==> 0 <= before[x] <= round * far,
                0 <= best <= round * far + far,
                best == 0 || exists|k: int|
                    0 <= k < i && (#[trigger] edges@[k]).head == v && best
                        == before[edges@[k].tail as int] + edges@[k].minlen,
                forall|k: int|
                    0 <= k < i && (#[trigger] edges@[k]).head == v ==> before[edges@[k].tail as int]
                        + edges@[k].minlen <= best,
        {
            let e = edges[i];
            assert(edges@[i as int].tail < n && edges@[i as int].head < n);
            if e.head == v {
                assert(before[e.tail as int] >= 0);
                let reach: i64 = rank[e.tail] + e.minlen;
                if reach > best {
                    best = reach;
                    assert(edges@[i as int].head == v);
                }
            }
        }
        rank.set(v, best);
        done.set(v, true);
        proof {
            lemma_count_set(done0, v as int);
            assert((round + 1) * far == round * far + far) by (nonlinear_arith);
            assert forall|i: int|
                #![trigger edges@[i]]
                0 <= i < edges@.len() && done@[edges@[i].head as int] implies done@[edges@[i].tail as int]
                && spec_slack(edges@[i], rank@) >= 0 by {
                if edges@[i].head == v {
                    assert(edges@[i].tail != v);
                } else {
                    assert(done0[edges@[i].tail as int]);
                }
            }
            assert forall|x: int|
                #![trigger done@[x]]
                0 <= x < n && done@[x] implies rank@[x] == 0 || exists|i: int|
                0 <= i < edges@.len() && (#[trigger] edges@[i]).head == x && spec_slack(
                    edges@[i],
                    rank@,
                ) == 0 && done@[edges@[i].tail as int] by {
                if x == v {
                    if best != 0 {
                        let k = choose|k: int|
                            0 <= k < edges@.len() && (#[trigger] edges@[k]).head == v && best
                                == before[edges@[k].tail as int] + edges@[k].minlen;
                        assert(done0[edges@[k].tail as int]);
                        assert(spec_slack(edges@[k], rank@) == 0);
                    }
                } else if rank@[x] != 0 {
                    assert(done0[x]);
                    let k = choose|k: int|
                        0 <= k < edges@.len() && (#[trigger] edges@[k]).head == x && spec_slack(
                            edges@[k],
                            before,
                        ) == 0 && done0[edges@[k].tail as int];
                    assert(edges@[k].tail != v);
                    assert(spec_slack(edges@[k], rank@) == 0);
                }
            }
            assert forall|x: int|
                #![trigger rank@[x]]
                0 <= x < n implies 0 <= rank@[x] <= (round + 1) * far by {
                if x != v {
                    assert(before[x] <= round * far);
                }
            }
            assert forall|x: int| 0 <= x < n && !done@[x] implies #[trigger] rank@[x] == 0 by {
                assert(before[x] == 0);
            }
        }
    }
    proof {
        assert forall|v: int| 0 <= v < n implies done@[v] by {
            if !done@[v] {
                lemma_count_set(done@, v);
                lemma_count_bound(done@.update(v, true));
            }
        }
        assert forall|i: int| 0 <= i < edges@.len() implies spec_slack(#[trigger] edges@[i], rank@)
            >= 0 by {
            assert(done@[edges@[i].head as int]);
        }
        assert forall|v: int|
            #![trigger rank@[v]]
            0 <= v < n implies rank@[v] >= 0 && (rank@[v] == 0 || exists|i: int|
            0 <= i < edges@.len() && (#[trigger] edges@[i]).head == v && spec_slack(
                edges@[i],
                rank@,
            ) == 0) by {
            assert(done@[v]);
        }
    }
    rank
}

proof fn lemma_none_done(done: Seq<bool>)
    requires
        forall|x: int| 0 <= x < done.len() ==> !#[trigger] done[x],
    ensures
        count_true(done) == 0,
    decreases done.len(),
{
    if done.len() > 0 {
        lemma_none_done(done.drop_last());
        assert(!done[done.len() - 1]);
    }
}

fn find_ready(n: usize, edges: &Vec<RankEdge>, done: &Vec<bool>, Ghost(number): Ghost<Seq<int>>) -> (v: usize)
    requires
        is_rankable(n as int, edges@),
        done@.len() == n,
        number.len() == n,
        leads_forward(edges@, number),
        count_true(done@) < n,
    ensures
        v < n,
        is_ready(edges@, done@, v as int),
{
    let mut blocked: Vec<bool> = Vec::new();
    for v in 0..n
        invariant
            blocked@.len() == v,
            done@.len() == n,
            forall|x: int| 0 <= x < v ==> #[trigger] blocked@[x] == done@[x],
    {
        blocked.push(done[v]);
    }
    for i in 0..edges.len()
        invariant
            is_rankable(n as int, edges@),
            done@.len() == n,
            blocked@.len() == n,
            forall|x: int|
                #![trigger blocked@[x]]
                0 <= x < n ==> (blocked@[x] <==> !is_ready(edges@.subrange(0, i as int), done@, x)),
    {
        let e = edges[i];
        assert(edges@[i as int].tail < n && edges@[i as int].head < n);
        let ghost before = blocked@;
        if !done[e.tail] {
            blocked.set(e.head, true);
        }
        proof {
            let (a, b) = (edges@.subrange(0, i as int), edges@.subrange(0, i + 1));
            assert(b[i as int] == e);
            assert forall|x: int|
                #![trigger blocked@[x]]
                0 <= x < n implies (blocked@[x] <==> !is_ready(b, done@, x)) by {
                assert(before[x] <==> !is_ready(a, done@, x));
                if is_ready(b, done@, x) {
                    assert forall|k: int|
                        #![trigger a[k]]
                        0 <= k < a.len() && a[k].head == x implies done@[a[k].tail as int] by {
                        assert(b[k] == a[k]);
                    }
                }
                if is_ready(a, done@, x) && !(e.head == x && !done@[e.tail as int]) {
                    assert forall|k: int|
                        #![trigger b[k]]
                        0 <= k < b.len() && b[k].head == x implies done@[b[k].tail as int] by {
                        if k < i {
                            assert(a[k] == b[k]);
                        }
                    }
                }
            }
        }
    }
    proof {
        assert(edges@.subrange(0, edges@.len() as int) =~= edges@);
        let v = lemma_some_left(done@);
        let ready = lemma_some_ready(n as int, edges@, done@, number, v);
        assert(!blocked@[ready]);
    }
    let mut v: usize = 0;
    while blocked[v]
        invariant
            blocked@.len() == n,
            v < n,
            forall|x: int| 0 <= x < v ==> #[trigger] blocked@[x],
            exists|x: int| 0 <= x < n && !#[trigger] blocked@[x],
        decreases n - v,
    {
        v = v + 1;
        proof {
            let x = choose|x: int| 0 <= x < n && !#[trigger] blocked@[x];
            assert(x >= v);
        }
    }
    v
}

proof fn lemma_some_left(done: Seq<bool>) -> (v: int)
    requires
        count_true(done) < done.len(),
    ensures
        0 <= v < done.len(),
        !done[v],
    decreases done.len(),
{
    if done.last() {
        lemma_some_left(done.drop_last())
    } else {
        done.len() - 1
    }
}

/// The edge joins the two nodes, in one direction or the other.
pub open spec fn joins(edge: RankEdge, a: int, b: int) -> bool {
    (edge.tail == a && edge.head == b) || (edge.tail == b && edge.head == a)
}

/// The steps over those edges that `on` admits, in both directions.
pub open spec fn links(edges: Seq<RankEdge>, on: spec_fn(int) -> bool) -> spec_fn(int, int) -> bool {
    |a: int, b: int| exists|i: int| 0 <= i < edges.len() && on(i) && #[trigger] joins(edges[i], a, b)
}

/// Steps in both directions lead back as well as forth.
pub proof fn lemma_links_symmetric(
    edges: Seq<RankEdge>,
    on: spec_fn(int) -> bool,
    a: int,
    b: int,
)
    requires
        reaches(links(edges, on), a, b),
    ensures
        reaches(links(edges, on), b, a),
{
    let e = links(edges, on);
    let p = choose|p: Seq<int>| walk_between(e, p, a, b);
    let q = p.reverse();
    assert forall|i: int| 0 <= i < q.len() - 1 implies #[trigger] step_at(e, q, i) by {
        let k = p.len() - 2 - i;
        assert(step_at(e, p, k));
        let j = choose|j: int|
            0 <= j < edges.len() && on(j) && #[trigger] joins(edges[j], p[k], p[k + 1]);
        assert(joins(edges[j], p[k + 1], p[k]));
    }
    assert(walk_between(e, q, b, a));
}

/// Fewer admitted edges reach no more.
pub proof fn lemma_links_monotone(
    edges: Seq<RankEdge>,
    on: spec_fn(int) -> bool,
    more: spec_fn(int) -> bool,
    a: int,
    b: int,
)
    requires
        forall|i: int| 0 <= i < edges.len() && #[trigger] on(i) ==> more(i),
        reaches(links(edges, on), a, b),
    ensures
        reaches(links(edges, more), a, b),
{
    let p = choose|p: Seq<int>| walk_between(links(edges, on), p, a, b);
    let e = links(edges, more);
    assert forall|i: int| 0 <= i < p.len() - 1 implies #[trigger] step_at(e, p, i) by {
        assert(step_at(links(edges, on), p, i));
        let j = choose|j: int|
            0 <= j < edges.len() && on(j) && #[trigger] joins(edges[j], p[i], p[i + 1]);
        assert(joins(edges[j], p[i], p[i + 1]));
    }
    assert(walk_between(e, p, a, b));
}

/// The edges of a set.
pub open spec fn members(set: Set<usize>) -> spec_fn(int) -> bool {
    |i: int| 0 <= i <= usize::MAX && set.contains(i as usize)
}

/// The edges of a set but one.
pub open spec fn members_but(set: Set<usize>, skip: int) -> spec_fn(int) -> bool {
    |i: int| 0 <= i <= usize::MAX && set.contains(i as usize) && i != skip
}

pub open spec fn marked(mask: Seq<bool>) -> spec_fn(int) -> bool {
    |i: int| 0 <= i < mask.len() && mask[i]
}

/// For each node, the edges at it.
fn incidence(n: usize, edges: &Vec<RankEdge>) -> (inc: Vec<Vec<usize>>)
    requires
        is_rankable(n as int, edges@),
    ensures
        inc@.len() == n,
        forall|v: int, i: usize|
            0 <= v < n ==> (#[trigger] inc@[v]@.contains(i) <==> i < edges@.len() && (
            edges@[i as int].tail == v || edges@[i as int].head == v)),
        forall|v: int|
            0 <= v < n ==> (#[trigger] inc@[v])@ == edges_at(edges@, v as usize, edges@.len()),
{
    let mut inc: Vec<Vec<usize>> = Vec::new();
    for v in 0..n
        invariant
            inc@.len() == v,
            forall|x: int| 0 <= x < v ==> (#[trigger] inc@[x])@ == Seq::<usize>::empty(),
    {
        inc.push(Vec::new());
    }
    for k in 0..edges.len()
        invariant
            is_rankable(n as int, edges@),
            inc@.len() == n,
            forall|v: int, i: usize|
                0 <= v < n ==> (#[trigger] inc@[v]@.contains(i) <==> i < k && (edges@[i as int].tail
                    == v || edges@[i as int].head == v)),
            forall|v: int|
                0 <= v < n ==> (#[trigger] inc@[v])@ == edges_at(edges@, v as usize, k as nat),
    {
        let e = edges[k];
        assert(edges@[k as int].tail < n && edges@[k as int].head < n);
        let ghost before = inc@;
        inc[e.tail].push(k);
        inc[e.head].push(k);
        proof {
            assert forall|v: int| 0 <= v < n implies (#[trigger] inc@[v])@ == edges_at(
                edges@,
                v as usize,
                (k + 1) as nat,
            ) by {
                assert(before[v]@ == edges_at(edges@, v as usize, k as nat));
                assert(edges@[k as int].tail != edges@[k as int].head);
            }
            assert forall|v: int, i: usize| 0 <= v < n implies (#[trigger] inc@[v]@.contains(i)
                <==> i < k + 1 && (edges@[i as int].tail == v || edges@[i as int].head == v)) by {
                let list = before[v]@;
                assert(list.contains(i) <==> i < k && (edges@[i as int].tail == v
                    || edges@[i as int].head == v));
                let now = inc@[v]@;
                if list.contains(i) {
                    assert(now[list.index_of(i)] == i);
                }
                if i == k && (e.tail == v || e.head == v) {
                    assert(now[list.len() as int] == k);
                }
                if now.contains(i) && !list.contains(i) {
                    let j = now.index_of(i);
                    if j < list.len() {
                        assert(list[j] == i);
                    }
                }
            }
        }
    }
    inc
}

/// What can be reached from `start` over the marked edges, and edges that reach it.
struct Flood {
    seen: FxHashSet<usize>,
    used: FxHashSet<usize>,
}

#[verifier::rlimit(40)]
fn flood(n: usize, edges: &Vec<RankEdge>, mask: &Vec<bool>, start: usize) -> (found: Flood)
    requires
        is_rankable(n as int, edges@),
        mask@.len() == edges@.len(),
        start < n,
    ensures
        forall|v: usize| #[trigger]
            found.seen@.contains(v) <==> v < n && reaches(
                links(edges@, marked(mask@)),
                start as int,
                v as int,
            ),
        forall|i: usize| #[trigger] found.used@.contains(i) ==> i < edges@.len() && mask@[i as int],
        forall|v: usize| #[trigger]
            found.seen@.contains(v) ==> reaches(
                links(edges@, members(found.used@)),
                start as int,
                v as int,
            ),
        is_tree(edges@, found.used@),
        exists|states: Seq<Flooding>| #[trigger]
            is_flood(edges@, marked(mask@), start, states) && states.last().stack.len() == 0
                && states.last().used == found.used@,
{
    let ghost e = links(edges@, marked(mask@));
    let inc = incidence(n, edges);
    let mut seen: FxHashSet<usize> = fx::set_new();
    let mut used: FxHashSet<usize> = fx::set_new();
    let mut count: Vec<bool> = Vec::new();
    for v in 0..n
        invariant
            count@.len() == v,
            forall|x: int| 0 <= x < v ==> !#[trigger] count@[x],
    {
        count.push(false);
    }
    let total: usize = edges.len();
    let mut stack: Vec<usize> = vec![start];
    fx::set_insert(&mut seen, start);
    count.set(start, true);
    let ghost mut states: Seq<Flooding> = seq![
        Flooding { seen: seen@, used: used@, stack: stack@ },
    ];
    proof {
        assert(stack@ =~= seq![start]);
        lemma_trivial_walk(e, start as int);
        lemma_trivial_walk(links(edges@, members(used@)), start as int);
        lemma_count_bound(count@);
    }
    while stack.len() > 0
        invariant
            is_rankable(n as int, edges@),
            mask@.len() == edges@.len(),
            total == edges@.len(),
            start < n,
            e == links(edges@, marked(mask@)),
            inc@.len() == n,
            forall|v: int, i: usize|
                0 <= v < n ==> (#[trigger] inc@[v]@.contains(i) <==> i < edges@.len() && (
                edges@[i as int].tail == v || edges@[i as int].head == v)),
            count@.len() == n,
            count_true(count@) <= n,
            forall|v: usize| #[trigger] seen@.contains(v) <==> v < n && count@[v as int],
            seen@.contains(start),
            forall|v: usize| #[trigger] seen@.contains(v) ==> reaches(e, start as int, v as int),
            forall|v: usize| #[trigger]
                seen@.contains(v) ==> reaches(
                    links(edges@, members(used@)),
                    start as int,
                    v as int,
                ),
            forall|i: usize| #[trigger] used@.contains(i) ==> i < edges@.len() && mask@[i as int],
            is_tree(edges@, used@),
            forall|v: int|
                0 <= v < n ==> (#[trigger] inc@[v])@ == edges_at(edges@, v as usize, edges@.len()),
            is_flood(edges@, marked(mask@), start, states),
            states.last() == (Flooding { seen: seen@, used: used@, stack: stack@ }),
            forall|i: usize| #[trigger]
                used@.contains(i) ==> seen@.contains(edges@[i as int].tail) && seen@.contains(
                    edges@[i as int].head,
                ),
            forall|k: int| 0 <= k < stack@.len() ==> seen@.contains(#[trigger] stack@[k]),
            forall|x: usize, y: int|
                seen@.contains(x) && #[trigger] e(x as int, y) ==> stack@.contains(x) || (0 <= y < n
                    && seen@.contains(y as usize)),
        decreases n - count_true(count@), stack@.len(),
    {
        let ghost stack0 = stack@;
        let v: usize = stack.pop().unwrap();
        let ghost seen0 = seen@;
        let ghost count0 = count@;
        let ghost stack1 = stack@;
        let ghost from = Flooding { seen: seen@, used: used@, stack: stack1 };
        assert(stack1 =~= stack0.drop_last());
        proof {
            assert(stack0[stack0.len() - 1] == v);
            assert(seen@.contains(v));
            assert forall|k: int| 0 <= k < stack1.len() implies seen@.contains(
                #[trigger] stack1[k],
            ) by {
                assert(stack0[k] == stack1[k]);
            }
        }
        let list = &inc[v];
        for k in 0..list.len()
            invariant
                is_rankable(n as int, edges@),
                mask@.len() == edges@.len(),
                start < n,
                v < n,
                e == links(edges@, marked(mask@)),
                list@ == inc@[v as int]@,
                forall|i: usize|
                    (#[trigger] list@.contains(i) <==> i < edges@.len() && (edges@[i as int].tail
                        == v || edges@[i as int].head == v)),
                count@.len() == n,
                count_true(count0) <= count_true(count@) <= n,
                count_true(count@) == count_true(count0) ==> seen@ == seen0 && stack@ == stack1,
                forall|x: usize| #[trigger] seen@.contains(x) <==> x < n && count@[x as int],
                forall|x: usize| #[trigger] seen0.contains(x) ==> seen@.contains(x),
                seen@.contains(v),
                forall|x: usize| #[trigger] seen@.contains(x) ==> reaches(e, start as int, x as int),
                forall|x: usize| #[trigger]
                    seen@.contains(x) ==> reaches(
                        links(edges@, members(used@)),
                        start as int,
                        x as int,
                    ),
                forall|i: usize| #[trigger]
                    used@.contains(i) ==> i < edges@.len() && mask@[i as int],
                is_tree(edges@, used@),
                spread(edges@, marked(mask@), v, list@.take(k as int), from) == (Flooding {
                    seen: seen@,
                    used: used@,
                    stack: stack@,
                }),
                forall|i: usize| #[trigger]
                    used@.contains(i) ==> seen@.contains(edges@[i as int].tail) && seen@.contains(
                        edges@[i as int].head,
                    ),
                forall|j: int| 0 <= j < stack@.len() ==> seen@.contains(#[trigger] stack@[j]),
                forall|x: usize| #[trigger] stack1.contains(x) ==> stack@.contains(x),
                forall|x: usize| #[trigger]
                    seen@.contains(x) && !seen0.contains(x) ==> stack@.contains(x),
                forall|j: int|
                    #![trigger list@[j]]
                    0 <= j < k && mask@[list@[j] as int] ==> seen@.contains(
                        other_end(edges@[list@[j] as int], v),
                    ),
        {
            let i: usize = list[k];
            assert(list@.contains(i));
            assert(list@.take(k + 1).drop_last() =~= list@.take(k as int));
            let edge = edges[i];
            assert(edges@[i as int].tail < n && edges@[i as int].head < n);
            if mask[i] {
                let other: usize = if edge.tail == v {
                    edge.head
                } else {
                    edge.tail
                };
                let ghost mid_seen = seen@;
                let ghost mid_used = used@;
                let ghost mid_stack = stack@;
                if fx::set_insert(&mut seen, other) {
                    fx::set_insert(&mut used, i);
                    proof {
                        lemma_count_set(count@, other as int);
                    }
                    count.set(other, true);
                    stack.push(other);
                    proof {
                        lemma_count_bound(count@);
                        assert(joins(edges@[i as int], v as int, other as int));
                        lemma_tree_grows(edges@, mid_used, mid_seen, i, v, other);
                        assert(e(v as int, other as int));
                        let p = choose|p: Seq<int>| walk_between(e, p, start as int, v as int);
                        lemma_extend(e, p, start as int, v as int, other as int);
                        let f = links(edges@, members(used@));
                        assert forall|x: usize| #[trigger] mid_seen.contains(x) implies reaches(
                            f,
                            start as int,
                            x as int,
                        ) by {
                            lemma_links_monotone(
                                edges@,
                                members(mid_used),
                                members(used@),
                                start as int,
                                x as int,
                            );
                        }
                        assert(members(used@)(i as int));
                        assert(f(v as int, other as int));
                        let q = choose|q: Seq<int>| walk_between(f, q, start as int, v as int);
                        lemma_extend(f, q, start as int, v as int, other as int);
                        assert(stack@[mid_stack.len() as int] == other);
                        assert forall|x: usize| mid_stack.contains(x) implies stack@.contains(x) by {
                            assert(stack@[mid_stack.index_of(x)] == x);
                        }
                        assert forall|x: usize| #[trigger]
                            seen@.contains(x) && !seen0.contains(x) implies stack@.contains(x) by {
                            if x != other {
                                assert(mid_stack.contains(x));
                            }
                        }
                        assert forall|x: usize| #[trigger] stack1.contains(x) implies stack@.contains(
                            x,
                        ) by {
                            assert(mid_stack.contains(x));
                        }
                    }
                } else {
                    assert(seen@ =~= mid_seen);
                }
            }
        }
        proof {
            assert(list@.take(list@.len() as int) =~= list@);
            let next = Flooding { seen: seen@, used: used@, stack: stack@ };
            lemma_next_flood(edges@, marked(mask@), start, states, next);
            states = states.push(next);
            assert forall|x: usize, y: int|
                seen@.contains(x) && #[trigger] e(x as int, y) implies stack@.contains(x) || (0 <= y
                < n && seen@.contains(y as usize)) by {
                if x == v {
                    let i = choose|i: int|
                        0 <= i < edges@.len() && marked(mask@)(i) && #[trigger] joins(
                            edges@[i],
                            v as int,
                            y,
                        );
                    assert(edges@[i].tail < n && edges@[i].head < n);
                    assert(list@.contains(i as usize));
                    let j = list@.index_of(i as usize);
                    assert(list@[j] == i);
                    assert(seen@.contains(other_end(edges@[list@[j] as int], v)));
                } else if seen0.contains(x) {
                    if stack0.contains(x) {
                        let j = stack0.index_of(x);
                        assert(stack1[j] == x);
                        assert(stack1.contains(x));
                    }
                }
            }
        }
    }
    proof {
        assert forall|v: usize| v < n && reaches(e, start as int, v as int) implies
            #[trigger] seen@.contains(v) by {
            let p = choose|p: Seq<int>| walk_between(e, p, start as int, v as int);
            assert forall|x: int, y: int|
                0 <= x < count@.len() && count@[x] && #[trigger] e(x, y) implies 0 <= y
                < count@.len() && count@[y] by {
                assert(seen@.contains(x as usize));
            }
            assert(count@[start as int]);
            crate::graph::analysis::sese::lemma_seen_closed(e, count@, p, p.len() - 1);
        }
    }
    Flood { seen, used }
}

/// The other end of an edge at `v`.
pub open spec fn other_end(edge: RankEdge, v: usize) -> usize {
    if edge.tail == v {
        edge.head
    } else {
        edge.tail
    }
}

/// The edges without slack.
pub open spec fn tight_edges(edges: Seq<RankEdge>, rank: Seq<i64>) -> spec_fn(int) -> bool {
    |i: int| 0 <= i < edges.len() && spec_slack(edges[i], rank) == 0
}

/// Ranks differ by so little that slacks can be computed.
pub open spec fn ranks_near(rank: Seq<i64>) -> bool {
    forall|v: int|
        0 <= v < rank.len() ==> -0x3000_0000_0000_0000 <= #[trigger] rank[v]
            <= 0x3000_0000_0000_0000
}

proof fn lemma_lengths(n: int, edges: Seq<RankEdge>)
    requires
        is_rankable(n, edges),
        n >= 1,
    ensures
        0 <= longest(edges) <= 0x0800_0000_0000_0000,
        forall|i: int|
            0 <= i < edges.len() ==> 0 <= (#[trigger] edges[i]).minlen <= 0x0800_0000_0000_0000,
{
    lemma_longest(edges);
    let far = longest(edges);
    assert(far <= n * far) by (nonlinear_arith)
        requires
            n >= 1,
            far >= 0,
    ;
}

/// Follows tight edges from node 0 (in either direction); gives the nodes that are
/// reached and tight edges that reach them.
fn tight_tree(n: usize, edges: &Vec<RankEdge>, rank: &Vec<i64>) -> (found: Flood)
    requires
        is_rankable(n as int, edges@),
        n >= 1,
        rank@.len() == n,
        ranks_near(rank@),
    ensures
        forall|v: usize| #[trigger]
            found.seen@.contains(v) <==> v < n && reaches(
                links(edges@, tight_edges(edges@, rank@)),
                0,
                v as int,
            ),
        forall|i: usize| #[trigger]
            found.used@.contains(i) ==> i < edges@.len() && spec_slack(edges@[i as int], rank@) == 0,
        forall|v: usize| #[trigger]
            found.seen@.contains(v) ==> reaches(links(edges@, members(found.used@)), 0, v as int),
        is_tree(edges@, found.used@),
        exists|states: Seq<Flooding>| #[trigger]
            is_flood(edges@, tight_edges(edges@, rank@), 0, states) && states.last().stack.len()
                == 0 && states.last().used == found.used@,
{
    proof {
        lemma_lengths(n as int, edges@);
    }
    let mut mask: Vec<bool> = Vec::new();
    for i in 0..edges.len()
        invariant
            is_rankable(n as int, edges@),
            forall|i: int|
                0 <= i < edges@.len() ==> 0 <= (#[trigger] edges@[i]).minlen
                    <= 0x0800_0000_0000_0000,
            rank@.len() == n,
            ranks_near(rank@),
            mask@.len() == i,
            forall|k: int|
                0 <= k < i ==> (#[trigger] mask@[k] <==> spec_slack(edges@[k], rank@) == 0),
    {
        let e = edges[i];
        assert(edges@[i as int].tail < n && edges@[i as int].head < n);
        assert(rank@[e.tail as int] <= 0x3000_0000_0000_0000 && rank@[e.head as int]
            <= 0x3000_0000_0000_0000);
        mask.push(e.slack(rank) == 0);
    }
    let found = flood(n, edges, &mask, 0);
    let total: usize = edges.len();
    proof {
        let states = choose|states: Seq<Flooding>| #[trigger]
            is_flood(edges@, marked(mask@), 0, states) && states.last().stack.len() == 0
                && states.last().used == found.used@;
        assert forall|i: int| 0 <= i < edges@.len() implies #[trigger] marked(mask@)(i)
            == tight_edges(edges@, rank@)(i) by {
            assert(mask@[i] <==> spec_slack(edges@[i], rank@) == 0);
        }
        lemma_same_flood(edges@, marked(mask@), tight_edges(edges@, rank@), 0, states);
        assert(links(edges@, marked(mask@)) =~= links(edges@, tight_edges(edges@, rank@))) by {
            assert forall|a: int, b: int| #[trigger] links(edges@, marked(mask@))(a, b) == links(
                edges@,
                tight_edges(edges@, rank@),
            )(a, b) by {
                if links(edges@, marked(mask@))(a, b) {
                    let i = choose|i: int|
                        0 <= i < edges@.len() && marked(mask@)(i) && #[trigger] joins(edges@[i], a, b);
                    assert(tight_edges(edges@, rank@)(i));
                    assert(joins(edges@[i], a, b));
                }
                if links(edges@, tight_edges(edges@, rank@))(a, b) {
                    let i = choose|i: int|
                        0 <= i < edges@.len() && tight_edges(edges@, rank@)(i) && #[trigger] joins(
                            edges@[i],
                            a,
                            b,
                        );
                    assert(marked(mask@)(i));
                    assert(joins(edges@[i], a, b));
                }
            }
        }
        assert forall|v: usize| #[trigger] found.seen@.contains(v) <==> v < n && reaches(
            links(edges@, tight_edges(edges@, rank@)),
            0,
            v as int,
        ) by {}
    }
    found
}

/// Nodes reachable from one endpoint of tree edge `skip` within the tree, not
/// crossing `skip`. With `from_head`, starts at the head endpoint.
pub fn component(
    n: usize,
    edges: &Vec<RankEdge>,
    tree: &FxHashSet<usize>,
    skip: usize,
    from_head: bool,
) -> (seen: FxHashSet<usize>)
    requires
        is_rankable(n as int, edges@),
        skip < edges@.len(),
    ensures
        forall|v: usize| #[trigger]
            seen@.contains(v) <==> v < n && reaches(
                links(edges@, members_but(tree@, skip as int)),
                if from_head {
                    edges@[skip as int].head as int
                } else {
                    edges@[skip as int].tail as int
                },
                v as int,
            ),
{
    assert(edges@[skip as int].tail < n && edges@[skip as int].head < n);
    let mut mask: Vec<bool> = Vec::new();
    for i in 0..edges.len()
        invariant
            mask@.len() == i,
            forall|k: int|
                0 <= k < i ==> (#[trigger] mask@[k] <==> members_but(tree@, skip as int)(k)),
    {
        mask.push(i != skip && fx::set_contains(tree, i));
    }
    let start: usize = if from_head {
        edges[skip].head
    } else {
        edges[skip].tail
    };
    let found = flood(n, edges, &mask, start);
    proof {
        let (f, g) = (
            links(edges@, marked(mask@)),
            links(edges@, members_but(tree@, skip as int)),
        );
        assert(f =~= g) by {
            assert forall|a: int, b: int| #[trigger] f(a, b) == g(a, b) by {
                if f(a, b) {
                    let i = choose|i: int|
                        0 <= i < edges@.len() && marked(mask@)(i) && #[trigger] joins(edges@[i], a, b);
                    assert(members_but(tree@, skip as int)(i));
                    assert(joins(edges@[i], a, b));
                }
                if g(a, b) {
                    let i = choose|i: int|
                        0 <= i < edges@.len() && members_but(tree@, skip as int)(i) && #[trigger] joins(
                            edges@[i],
                            a,
                            b,
                        );
                    assert(mask@[i]);
                    assert(marked(mask@)(i));
                    assert(joins(edges@[i], a, b));
                }
            }
        }
        assert forall|v: usize| #[trigger] found.seen@.contains(v) <==> v < n && reaches(
            g,
            start as int,
            v as int,
        ) by {}
    }
    found.seen
}

/// Nodes that tight edges join are no further apart than the edges are long together.
proof fn lemma_tight_spread(
    n: int,
    edges: Seq<RankEdge>,
    on: spec_fn(int) -> bool,
    rank: Seq<i64>,
    v: int,
)
    requires
        is_rankable(n, edges),
        n >= 1,
        rank.len() == n,
        0 <= v < n,
        forall|i: int| 0 <= i < edges.len() && #[trigger] on(i) ==> spec_slack(edges[i], rank) == 0,
        reaches(links(edges, on), 0, v),
    ensures
        -(n * longest(edges)) <= rank[v] - rank[0] <= n * longest(edges),
{
    let e = links(edges, on);
    let far = longest(edges);
    lemma_longest(edges);
    let p = choose|p: Seq<int>| walk_between(e, p, 0, v);
    let q = lemma_simple_walk(e, p, 0, v);
    assert forall|i: int| 0 <= i < q.len() implies 0 <= #[trigger] q[i] < n by {
        if i > 0 {
            assert(step_at(e, q, i - 1));
            let j = choose|j: int|
                0 <= j < edges.len() && on(j) && #[trigger] joins(edges[j], q[i - 1], q[i]);
            assert(edges[j].tail < n && edges[j].head < n);
        }
    }
    crate::counting::lemma_distinct_in_range(q, 0, n);
    lemma_walk_spread(n, edges, on, rank, q, q.len() - 1);
    assert((q.len() - 1) * far <= n * far) by (nonlinear_arith)
        requires
            q.len() <= n,
            far >= 0,
    ;
}

proof fn lemma_walk_spread(
    n: int,
    edges: Seq<RankEdge>,
    on: spec_fn(int) -> bool,
    rank: Seq<i64>,
    q: Seq<int>,
    i: int,
)
    requires
        is_rankable(n, edges),
        rank.len() == n,
        forall|i: int| 0 <= i < edges.len() && #[trigger] on(i) ==> spec_slack(edges[i], rank) == 0,
        is_walk(links(edges, on), q),
        0 <= i < q.len(),
    ensures
        -(i * longest(edges)) <= rank[q[i]] - rank[q[0]] <= i * longest(edges),
    decreases i,
{
    let far = longest(edges);
    if i > 0 {
        lemma_walk_spread(n, edges, on, rank, q, i - 1);
        lemma_longest(edges);
        assert(step_at(links(edges, on), q, i - 1));
        let j = choose|j: int|
            0 <= j < edges.len() && on(j) && #[trigger] joins(edges[j], q[i - 1], q[i]);
        assert(spec_slack(edges[j], rank) == 0);
        assert(0 <= edges[j].minlen <= far);
        assert(i * far == (i - 1) * far + far) by (nonlinear_arith);
    } else {
        assert(0 * far == 0) by (nonlinear_arith);
    }
}

/// Every node can be reached from node 0 over the edges of `tree`, which have no slack.
pub open spec fn is_tight_tree(n: int, edges: Seq<RankEdge>, rank: Seq<i64>, tree: Set<usize>) -> bool {
    &&& forall|i: usize| #[trigger]
        tree.contains(i) ==> i < edges.len() && spec_slack(edges[i as int], rank) == 0
    &&& forall|v: int|
        0 <= v < n ==> #[trigger] reaches(links(edges, members(tree)), 0, v)
}

/// Every edge.
pub open spec fn all_edges() -> spec_fn(int) -> bool {
    |i: int| true
}

/// Every node can be reached from node 0 over edges in either direction.
pub open spec fn is_connected(n: int, edges: Seq<RankEdge>) -> bool {
    forall|v: int| 0 <= v < n ==> #[trigger] reaches(links(edges, all_edges()), 0, v)
}

/// Of all edges with exactly one end in `seen`, the first with the least slack.
fn boundary_edge(
    n: usize,
    edges: &Vec<RankEdge>,
    rank: &Vec<i64>,
    seen: &FxHashSet<usize>,
) -> (best: Option<(i64, usize)>)
    requires
        is_rankable(n as int, edges@),
        n >= 1,
        rank@.len() == n,
        ranks_near(rank@),
    ensures
        match best {
            Some((slack, i)) => {
                &&& i < edges@.len()
                &&& slack == spec_slack(edges@[i as int], rank@)
                &&& is_tightest(edges@, rank@, border(edges@, seen@), i as int)
            },
            None => forall|k: int| 0 <= k < edges@.len() ==> !crosses(#[trigger] edges@[k], seen@),
        },
{
    proof {
        lemma_lengths(n as int, edges@);
    }
    let mut best: Option<(i64, usize)> = None;
    for i in 0..edges.len()
        invariant
            is_rankable(n as int, edges@),
            forall|i: int|
                0 <= i < edges@.len() ==> 0 <= (#[trigger] edges@[i]).minlen
                    <= 0x0800_0000_0000_0000,
            rank@.len() == n,
            ranks_near(rank@),
            match best {
                Some((slack, b)) => {
                    &&& b < i
                    &&& slack == spec_slack(edges@[b as int], rank@)
                    &&& crosses(edges@[b as int], seen@)
                    &&& forall|k: int|
                        0 <= k < i && crosses(#[trigger] edges@[k], seen@) ==> slack < spec_slack(
                            edges@[k],
                            rank@,
                        ) || (slack == spec_slack(edges@[k], rank@) && b <= k)
                },
                None => forall|k: int| 0 <= k < i ==> !crosses(#[trigger] edges@[k], seen@),
            },
    {
        let e = edges[i];
        assert(edges@[i as int].tail < n && edges@[i as int].head < n);
        assert(rank@[e.tail as int] <= 0x3000_0000_0000_0000 && rank@[e.head as int]
            <= 0x3000_0000_0000_0000);
        if fx::set_contains(seen, e.tail) != fx::set_contains(seen, e.head) {
            let slack: i64 = e.slack(rank);
            let better = match best {
                Some((s, _)) => slack < s,
                None => true,
            };
            if better {
                best = Some((slack, i));
            }
        }
    }
    best
}

/// Exactly one end of the edge is in the set.
pub open spec fn crosses(edge: RankEdge, seen: Set<usize>) -> bool {
    seen.contains(edge.tail) != seen.contains(edge.head)
}

/// Where not all nodes are in the set, and node 0 is, an edge crosses its border.
proof fn lemma_some_crosses(n: int, edges: Seq<RankEdge>, seen: Set<usize>, v: usize)
    requires
        is_connected(n, edges),
        v < n,
        seen.contains(0),
        !seen.contains(v),
        forall|i: int| #![trigger edges[i]] 0 <= i < edges.len() ==> edges[i].tail < n && edges[i].head < n,
        n <= usize::MAX + 1,
    ensures
        exists|k: int| 0 <= k < edges.len() && crosses(#[trigger] edges[k], seen),
{
    let e = links(edges, all_edges());
    assert(reaches(e, 0, v as int));
    let p = choose|p: Seq<int>| walk_between(e, p, 0, v as int);
    if forall|k: int| 0 <= k < edges.len() ==> !crosses(#[trigger] edges[k], seen) {
        lemma_stays_inside(n, edges, seen, p, p.len() - 1);
    }
}

proof fn lemma_stays_inside(n: int, edges: Seq<RankEdge>, seen: Set<usize>, p: Seq<int>, i: int)
    requires
        is_walk(links(edges, all_edges()), p),
        p[0] == 0,
        seen.contains(0),
        forall|k: int| 0 <= k < edges.len() ==> !crosses(#[trigger] edges[k], seen),
        0 <= i < p.len(),
    ensures
        0 <= p[i] <= usize::MAX,
        seen.contains(p[i] as usize),
    decreases i,
{
    if i > 0 {
        lemma_stays_inside(n, edges, seen, p, i - 1);
        let e = links(edges, all_edges());
        assert(step_at(e, p, i - 1));
        let j = choose|j: int| 0 <= j < edges.len() && #[trigger] joins(edges[j], p[i - 1], p[i]);
        assert(!crosses(edges[j], seen));
    }
}

/// Grows a spanning tree of tight edges (slack 0). Where it cannot span the
/// graph, shifts the current tree component to tighten the min-slack boundary
/// edge and retries. Gives the edges of the spanning tree.
#[verifier::rlimit(40)]
fn feasible_tree(n: usize, edges: &Vec<RankEdge>, rank: &mut Vec<i64>) -> (tree: FxHashSet<usize>)
    requires
        is_rankable(n as int, edges@),
        n >= 1,
        is_connected(n as int, edges@),
        is_longest_path(n as int, edges@, old(rank)@),
        forall|v: int|
            0 <= v < n ==> 0 <= #[trigger] old(rank)@[v] <= n * longest(edges@),
    ensures
        final(rank)@.len() == n,
        is_feasible(edges@, final(rank)@),
        is_spanning(n as int, edges@, final(rank)@, tree@),
        exists|shifts: Seq<Seq<i64>>| #[trigger]
            is_shifting(n as int, edges@, shifts) && shifts.last() == final(rank)@,
        exists|states: Seq<Flooding>| #[trigger]
            is_flood(edges@, tight_edges(edges@, final(rank)@), 0, states)
                && states.last().stack.len() == 0 && states.last().used == tree@,
        -4 * (n * longest(edges@)) <= final(rank)@[0] <= 4 * (n * longest(edges@)),
{
    let ghost span = n * longest(edges@);
    let ghost init = rank@;
    proof {
        lemma_lengths(n as int, edges@);
        assert(longest(edges@) <= span) by (nonlinear_arith)
            requires
                span == n * longest(edges@),
                n >= 1,
                longest(edges@) >= 0,
        ;
    }
    let ghost mut last: Set<usize> = Set::empty();
    let ghost mut shifts: Seq<Seq<i64>> = seq![rank@];
    proof {
        lemma_longest(edges@);
        lemma_count_bound(in_set(n as int, last));
    }
    loop
        invariant
            is_rankable(n as int, edges@),
            n >= 1,
            is_connected(n as int, edges@),
            rank@.len() == n,
            init.len() == n,
            is_feasible(edges@, rank@),
            is_shifting(n as int, edges@, shifts),
            shifts.last() == rank@,
            span == n * longest(edges@),
            0 <= longest(edges@) <= span <= 0x0800_0000_0000_0000,
            forall|i: int|
                0 <= i < edges@.len() ==> 0 <= (#[trigger] edges@[i]).minlen <= longest(edges@),
            forall|v: int| 0 <= v < n ==> 0 <= #[trigger] init[v] <= span,
            -4 * span <= rank@[0] <= 4 * span,
            forall|v: usize| v < n && !last.contains(v) ==> #[trigger] rank@[v as int] == init[v as int],
            forall|v: usize| #[trigger]
                last.contains(v) ==> v < n && reaches(
                    links(edges@, tight_edges(edges@, rank@)),
                    0,
                    v as int,
                ),
            count_true(in_set(n as int, last)) <= n,
        decreases n - count_true(in_set(n as int, last)),
    {
        proof {
            assert forall|v: int| 0 <= v < n implies -0x3000_0000_0000_0000 <= #[trigger] rank@[v]
                <= 0x3000_0000_0000_0000 by {
                if last.contains(v as usize) {
                    lemma_tight_spread(n as int, edges@, tight_edges(edges@, rank@), rank@, v);
                } else {
                    assert(rank@[v] == init[v]);
                }
            }
        }
        let found = tight_tree(n, edges, rank);
        let mut spans = true;
        let mut missing: usize = 0;
        for v in 0..n
            invariant
                spans <==> forall|x: usize| x < v ==> #[trigger] found.seen@.contains(x),
                !spans ==> missing < n && !found.seen@.contains(missing),
        {
            if !fx::set_contains(&found.seen, v) {
                if spans {
                    missing = v;
                }
                spans = false;
            }
        }
        if spans {
            proof {
                assert forall|v: int| 0 <= v < n implies #[trigger] reaches(
                    links(edges@, members(found.used@)),
                    0,
                    v,
                ) by {
                    assert(found.seen@.contains(v as usize));
                }
            }
            return found.used;
        }
        let ghost before = rank@;
        let ghost seen = found.seen@;
        proof {
            lemma_trivial_walk(links(edges@, tight_edges(edges@, rank@)), 0);
            assert(seen.contains(0));
            lemma_some_crosses(n as int, edges@, seen, missing);
            assert forall|v: usize| #[trigger] seen.contains(v) implies -span <= before[v as int]
                - before[0] <= span by {
                lemma_tight_spread(
                    n as int,
                    edges@,
                    tight_edges(edges@, rank@),
                    rank@,
                    v as int,
                );
            }
        }
        let (slack, ei) = match boundary_edge(n, edges, rank, &found.seen) {
            Some(best) => best,
            None => {
                proof {
                    let k = choose|k: int| 0 <= k < edges@.len() && crosses(#[trigger] edges@[k], seen);
                    assert(false);
                }
                (0, 0)
            },
        };
        let e = edges[ei];
        assert(edges@[ei as int].tail < n && edges@[ei as int].head < n);
        assert(spec_slack(edges@[ei as int], before) >= 0);
        let delta: i64 = if fx::set_contains(&found.seen, e.head) {
            -slack
        } else {
            slack
        };
        proof {
            let (a, b) = if seen.contains(e.head) {
                (e.head, e.tail)
            } else {
                (e.tail, e.head)
            };
            assert(seen.contains(a) && !seen.contains(b));
            assert(!last.contains(b)) by {
                if last.contains(b) {
                    assert(seen.contains(b));
                }
            }
            assert(before[b as int] == init[b as int]);
            assert(-span <= before[a as int] - before[0] <= span);
            assert(before[a as int] + delta == before[b as int] - e.minlen || before[a as int] + delta
                == before[b as int] + e.minlen);
        }
        for v in 0..n
            invariant
                rank@.len() == n,
                before.len() == n,
                found.seen@ == seen,
                -0x4000_0000_0000_0000 <= delta <= 0x4000_0000_0000_0000,
                forall|x: int|
                    0 <= x < n ==> -0x3000_0000_0000_0000 <= #[trigger] before[x]
                        <= 0x3000_0000_0000_0000,
                forall|x: int|
                    0 <= x < n ==> #[trigger] rank@[x] == if x < v && seen.contains(x as usize) {
                        before[x] + delta
                    } else {
                        before[x] as int
                    },
        {
            if fx::set_contains(&found.seen, v) {
                assert(rank@[v as int] == before[v as int]);
                assert(before[v as int] <= 0x3000_0000_0000_0000);
                let moved: i64 = rank[v] + delta;
                rank.set(v, moved);
            }
        }
        proof {
            assert forall|i: int| 0 <= i < edges@.len() implies spec_slack(#[trigger] edges@[i], rank@)
                >= 0 by {
                assert(edges@[i].tail < n && edges@[i].head < n);
                assert(spec_slack(edges@[i], before) >= 0);
                if crosses(edges@[i], seen) {
                    assert(border(edges@, seen)(i));
                    assert(slack <= spec_slack(edges@[i], before));
                }
            }
            assert(spec_slack(e, rank@) == 0);
            let part = tight_part(n as int, edges@, before);
            assert(part =~= seen);
            assert(rank@ =~= part_moved(before, part, delta as int));
            assert(closes_in(n as int, edges@, before, ei as int, rank@));
            lemma_next_shift(n as int, edges@, shifts, rank@);
            shifts = shifts.push(rank@);
            let now = links(edges@, tight_edges(edges@, rank@));
            assert forall|v: usize| #[trigger] seen.contains(v) implies reaches(now, 0, v as int) by {
                let old_links = links(edges@, tight_edges(edges@, before));
                let p = choose|p: Seq<int>| walk_between(old_links, p, 0, v as int);
                lemma_moved_together(n as int, edges@, before, rank@, seen, delta as int, p, v as int);
            }
            let (a, b) = if seen.contains(e.head) {
                (e.head, e.tail)
            } else {
                (e.tail, e.head)
            };
            assert(reaches(now, 0, a as int));
            assert(tight_edges(edges@, rank@)(ei as int));
            assert(joins(edges@[ei as int], a as int, b as int));
            assert(now(a as int, b as int));
            let p = choose|p: Seq<int>| walk_between(now, p, 0, a as int);
            lemma_extend(now, p, 0, a as int, b as int);
            let next = seen.insert(b);
            lemma_more_members(n as int, last, next, b);
            last = next;
            lemma_count_bound(in_set(n as int, last));
        }
    }
}

spec fn in_set(n: int, set: Set<usize>) -> Seq<bool> {
    Seq::new(n as nat, |v: int| set.contains(v as usize))
}

proof fn lemma_more_members(n: int, less: Set<usize>, more: Set<usize>, x: usize)
    requires
        x < n <= usize::MAX + 1,
        !less.contains(x),
        more.contains(x),
        forall|v: usize| #[trigger] less.contains(v) ==> more.contains(v),
    ensures
        count_true(in_set(n, less)) < count_true(in_set(n, more)),
{
    assert(!in_set(n, less)[x as int] && in_set(n, more)[x as int]);
    crate::counting::lemma_count_shrinks(in_set(n, less), in_set(n, more));
}

/// Nodes that move together keep the tight edges between them.
proof fn lemma_moved_together(
    n: int,
    edges: Seq<RankEdge>,
    before: Seq<i64>,
    after: Seq<i64>,
    seen: Set<usize>,
    delta: int,
    p: Seq<int>,
    v: int,
)
    requires
        before.len() == n,
        after.len() == n,
        n <= usize::MAX + 1,
        forall|i: int| #![trigger edges[i]] 0 <= i < edges.len() ==> edges[i].tail < n && edges[i].head < n,
        forall|x: int|
            0 <= x < n ==> #[trigger] after[x] == if seen.contains(x as usize) {
                before[x] + delta
            } else {
                before[x] as int
            },
        forall|x: usize| #[trigger]
            seen.contains(x) <==> x < n && reaches(links(edges, tight_edges(edges, before)), 0, x as int),
        walk_between(links(edges, tight_edges(edges, before)), p, 0, v),
    ensures
        reaches(links(edges, tight_edges(edges, after)), 0, v),
{
    let old_links = links(edges, tight_edges(edges, before));
    let now = links(edges, tight_edges(edges, after));
    assert forall|i: int| 0 <= i < p.len() - 1 implies #[trigger] step_at(now, p, i) by {
        assert(step_at(old_links, p, i));
        let j = choose|j: int|
            0 <= j < edges.len() && tight_edges(edges, before)(j) && #[trigger] joins(
                edges[j],
                p[i],
                p[i + 1],
            );
        assert(edges[j].tail < n && edges[j].head < n);
        lemma_part(old_links, p, 0, i);
        lemma_part(old_links, p, 0, i + 1);
        assert(reaches(old_links, 0, p[i]));
        assert(reaches(old_links, 0, p[i + 1]));
        assert(seen.contains(p[i] as usize) && seen.contains(p[i + 1] as usize));
        assert(seen.contains(edges[j].tail) && seen.contains(edges[j].head));
        assert(spec_slack(edges[j], after) == 0);
        assert(tight_edges(edges, after)(j));
        assert(joins(edges[j], p[i], p[i + 1]));
    }
    assert(walk_between(now, p, 0, v));
}

/// The weight that crosses a cut into the set, less the weight that crosses it out of the
/// set, over the first `k` edges.
pub open spec fn cut_weight(edges: Seq<RankEdge>, inside: Set<usize>, k: nat) -> int
    decreases k,
{
    if k == 0 {
        0
    } else {
        let e = edges[k - 1];
        cut_weight(edges, inside, (k - 1) as nat) + if inside.contains(e.tail) == inside.contains(
            e.head,
        ) {
            0
        } else if inside.contains(e.head) {
            e.weight as int
        } else {
            -e.weight
        }
    }
}

proof fn lemma_cut_bound(edges: Seq<RankEdge>, inside: Set<usize>, k: nat)
    requires
        k <= edges.len(),
        forall|i: int| 0 <= i < edges.len() ==> (#[trigger] edges[i]).weight >= 0,
    ensures
        -total_weight(edges.subrange(0, k as int)) <= cut_weight(edges, inside, k) <= total_weight(
            edges.subrange(0, k as int),
        ),
        0 <= total_weight(edges.subrange(0, k as int)) <= total_weight(edges),
    decreases k,
{
    lemma_weight_prefix(edges, k);
    if k > 0 {
        lemma_cut_bound(edges, inside, (k - 1) as nat);
        assert(edges.subrange(0, k as int).drop_last() =~= edges.subrange(0, k - 1));
        assert(edges[k - 1].weight >= 0);
    }
}

proof fn lemma_weight_prefix(edges: Seq<RankEdge>, k: nat)
    requires
        k <= edges.len(),
        forall|i: int| 0 <= i < edges.len() ==> (#[trigger] edges[i]).weight >= 0,
    ensures
        0 <= total_weight(edges.subrange(0, k as int)) <= total_weight(edges),
    decreases edges.len(),
{
    if k == edges.len() {
        assert(edges.subrange(0, k as int) =~= edges);
        if k > 0 {
            let front = edges.drop_last();
            assert forall|i: int| 0 <= i < front.len() implies (#[trigger] front[i]).weight >= 0 by {
                assert(edges[i].weight >= 0);
            }
            lemma_weight_prefix(front, (k - 1) as nat);
            assert(front.subrange(0, k - 1) =~= front);
            assert(edges[k - 1].weight >= 0);
        }
    } else {
        let front = edges.drop_last();
        assert forall|i: int| 0 <= i < front.len() implies (#[trigger] front[i]).weight >= 0 by {
            assert(edges[i].weight >= 0);
        }
        lemma_weight_prefix(front, k);
        assert(front.subrange(0, k as int) =~= edges.subrange(0, k as int));
        assert(edges[edges.len() - 1].weight >= 0);
    }
}

/// The nodes on the head's side of the tree edge `te`.
pub open spec fn head_side(n: int, edges: Seq<RankEdge>, tree: Set<usize>, te: int) -> Set<usize> {
    Set::new(
        |v: usize|
            v < n && reaches(
                links(edges, members_but(tree, te)),
                edges[te].head as int,
                v as int,
            ),
    )
}

/// For each tree edge, the cut value: (weight of edges crossing the cut in the
/// tail to head direction) - (weight crossing head to tail).
pub fn cut_values(n: usize, edges: &Vec<RankEdge>, tree: &FxHashSet<usize>) -> (out: FxHashMap<
    usize,
    i64,
>)
    requires
        is_rankable(n as int, edges@),
    ensures
        forall|te: usize| #[trigger]
            out@.contains_key(te) <==> te < edges@.len() && tree@.contains(te),
        forall|te: usize|
            te < edges@.len() && tree@.contains(te) ==> #[trigger] out@[te] == cut_weight(
                edges@,
                head_side(n as int, edges@, tree@, te as int),
                edges@.len(),
            ),
{
    let mut out: FxHashMap<usize, i64> = fx::map_new();
    for te in 0..edges.len()
        invariant
            is_rankable(n as int, edges@),
            forall|t: usize| #[trigger] out@.contains_key(t) <==> t < te && tree@.contains(t),
            forall|t: usize|
                t < te && tree@.contains(t) ==> #[trigger] out@[t] == cut_weight(
                    edges@,
                    head_side(n as int, edges@, tree@, t as int),
                    edges@.len(),
                ),
    {
        if fx::set_contains(tree, te) {
            let inside = component(n, edges, tree, te, true);
            let ghost side = head_side(n as int, edges@, tree@, te as int);
            assert(inside@ =~= side);
            let mut value: i64 = 0;
            for k in 0..edges.len()
                invariant
                    is_rankable(n as int, edges@),
                    inside@ == side,
                    value == cut_weight(edges@, side, k as nat),
            {
                let f = edges[k];
                proof {
                    assert forall|i: int| 0 <= i < edges@.len() implies (#[trigger] edges@[i]).weight
                        >= 0 by {}
                    lemma_cut_bound(edges@, side, k as nat);
                    lemma_cut_bound(edges@, side, (k + 1) as nat);
                    assert(edges@.subrange(0, k + 1).drop_last() =~= edges@.subrange(0, k as int));
                }
                let tail_inside = fx::set_contains(&inside, f.tail);
                let head_inside = fx::set_contains(&inside, f.head);
                if tail_inside != head_inside {
                    if head_inside {
                        value = value + f.weight;
                    } else {
                        value = value - f.weight;
                    }
                }
            }
            fx::map_insert(&mut out, te, value);
        }
    }
    out
}

/// The edge crosses the cut from the head's side to the tail's side.
pub open spec fn crosses_back(edge: RankEdge, inside: Set<usize>) -> bool {
    inside.contains(edge.tail) && !inside.contains(edge.head)
}

/// The non-tree edge that should enter when `leave` exits: it must cross the cut
/// in the opposite direction (head-component to tail-component) with min slack.
fn enter_edge(
    n: usize,
    edges: &Vec<RankEdge>,
    tree: &FxHashSet<usize>,
    leave: usize,
    rank: &Vec<i64>,
) -> (best: Option<(i64, usize)>)
    requires
        is_rankable(n as int, edges@),
        n >= 1,
        leave < edges@.len(),
        rank@.len() == n,
        ranks_near(rank@),
    ensures
        match best {
            Some((slack, i)) => {
                let side = head_side(n as int, edges@, tree@, leave as int);
                &&& i < edges@.len()
                &&& slack == spec_slack(edges@[i as int], rank@)
                &&& is_tightest(edges@, rank@, backward(edges@, tree@, side), i as int)
            },
            None => forall|k: int|
                0 <= k < edges@.len() && crosses_back(
                    #[trigger] edges@[k],
                    head_side(n as int, edges@, tree@, leave as int),
                ) ==> tree@.contains(k as usize),
        },
{
    proof {
        lemma_lengths(n as int, edges@);
    }
    let inside = component(n, edges, tree, leave, true);
    let ghost side = head_side(n as int, edges@, tree@, leave as int);
    assert(inside@ =~= side);
    let mut best: Option<(i64, usize)> = None;
    for i in 0..edges.len()
        invariant
            is_rankable(n as int, edges@),
            forall|i: int|
                0 <= i < edges@.len() ==> 0 <= (#[trigger] edges@[i]).minlen
                    <= 0x0800_0000_0000_0000,
            rank@.len() == n,
            ranks_near(rank@),
            inside@ == side,
            match best {
                Some((slack, b)) => {
                    &&& b < i
                    &&& !tree@.contains(b)
                    &&& slack == spec_slack(edges@[b as int], rank@)
                    &&& crosses_back(edges@[b as int], side)
                    &&& forall|k: int|
                        0 <= k < i && crosses_back(#[trigger] edges@[k], side) && !tree@.contains(
                            k as usize,
                        ) ==> slack < spec_slack(edges@[k], rank@) || (slack == spec_slack(
                            edges@[k],
                            rank@,
                        ) && b <= k)
                },
                None => forall|k: int|
                    0 <= k < i && crosses_back(#[trigger] edges@[k], side) ==> tree@.contains(
                        k as usize,
                    ),
            },
    {
        let f = edges[i];
        assert(edges@[i as int].tail < n && edges@[i as int].head < n);
        assert(rank@[f.tail as int] <= 0x3000_0000_0000_0000 && rank@[f.head as int]
            <= 0x3000_0000_0000_0000);
        if !fx::set_contains(tree, i) && fx::set_contains(&inside, f.tail) && !fx::set_contains(
            &inside,
            f.head,
        ) {
            let slack: i64 = f.slack(rank);
            let better = match best {
                Some((s, _)) => slack < s,
                None => true,
            };
            if better {
                best = Some((slack, i));
            }
        }
    }
    best
}

/// Recomputes ranks so all tree edges are tight (slack 0), anchored at node 0: where
/// `goal` is such a ranking, it is the one that comes out.
#[verifier::rlimit(40)]
fn tighten(
    n: usize,
    edges: &Vec<RankEdge>,
    tree: &FxHashSet<usize>,
    rank: &mut Vec<i64>,
    Ghost(goal): Ghost<Seq<i64>>,
)
    requires
        is_rankable(n as int, edges@),
        n >= 1,
        old(rank)@.len() == n,
        goal.len() == n,
        goal[0] == old(rank)@[0],
        is_tight_tree(n as int, edges@, goal, tree@),
        ranks_near(goal),
    ensures
        final(rank)@ == goal,
{
    proof {
        lemma_lengths(n as int, edges@);
    }
    let inc = incidence(n, edges);
    let ghost e = links(edges@, members(tree@));
    let total: usize = edges.len();
    let mut seen: Vec<bool> = Vec::new();
    for v in 0..n
        invariant
            seen@.len() == v,
            forall|x: int| 0 <= x < v ==> !#[trigger] seen@[x],
    {
        seen.push(false);
    }
    let mut stack: Vec<usize> = vec![0];
    seen.set(0, true);
    proof {
        lemma_count_bound(seen@);
    }
    while stack.len() > 0
        invariant
            is_rankable(n as int, edges@),
            forall|i: int|
                0 <= i < edges@.len() ==> 0 <= (#[trigger] edges@[i]).minlen
                    <= 0x0800_0000_0000_0000,
            total == edges@.len(),
            n >= 1,
            e == links(edges@, members(tree@)),
            inc@.len() == n,
            forall|v: int, i: usize|
                0 <= v < n ==> (#[trigger] inc@[v]@.contains(i) <==> i < edges@.len() && (
                edges@[i as int].tail == v || edges@[i as int].head == v)),
            goal.len() == n,
            is_tight_tree(n as int, edges@, goal, tree@),
            ranks_near(goal),
            rank@.len() == n,
            seen@.len() == n,
            seen@[0],
            count_true(seen@) <= n,
            forall|v: int| 0 <= v < n && seen@[v] ==> #[trigger] rank@[v] == goal[v],
            forall|k: int|
                0 <= k < stack@.len() ==> (#[trigger] stack@[k]) < n && seen@[stack@[k] as int],
            forall|x: int, y: int|
                0 <= x < n && seen@[x] && #[trigger] e(x, y) ==> stack@.contains(x as usize) || (0
                    <= y < n && seen@[y]),
        decreases n - count_true(seen@), stack@.len(),
    {
        let ghost stack0 = stack@;
        let v: usize = stack.pop().unwrap();
        let ghost stack1 = stack@;
        let ghost seen0 = seen@;
        proof {
            assert(stack0[stack0.len() - 1] == v);
            assert forall|k: int| 0 <= k < stack1.len() implies (#[trigger] stack1[k]) < n
                && seen@[stack1[k] as int] by {
                assert(stack0[k] == stack1[k]);
            }
        }
        let list = &inc[v];
        for k in 0..list.len()
            invariant
                is_rankable(n as int, edges@),
                forall|i: int|
                    0 <= i < edges@.len() ==> 0 <= (#[trigger] edges@[i]).minlen
                        <= 0x0800_0000_0000_0000,
                v < n,
                list@ == inc@[v as int]@,
                forall|i: usize|
                    (#[trigger] list@.contains(i) <==> i < edges@.len() && (edges@[i as int].tail
                        == v || edges@[i as int].head == v)),
                goal.len() == n,
                is_tight_tree(n as int, edges@, goal, tree@),
                ranks_near(goal),
                rank@.len() == n,
                seen@.len() == n,
                seen0.len() == n,
                seen@[v as int],
                count_true(seen0) <= count_true(seen@) <= n,
                count_true(seen@) == count_true(seen0) ==> seen@ == seen0 && stack@ == stack1,
                forall|x: int| 0 <= x < n && seen0[x] ==> #[trigger] seen@[x],
                forall|x: int| 0 <= x < n && seen@[x] ==> #[trigger] rank@[x] == goal[x],
                forall|j: int|
                    0 <= j < stack@.len() ==> (#[trigger] stack@[j]) < n && seen@[stack@[j] as int],
                forall|x: usize| #[trigger] stack1.contains(x) ==> stack@.contains(x),
                forall|x: int|
                    0 <= x < n && #[trigger] seen@[x] && !seen0[x] ==> stack@.contains(x as usize),
                forall|j: int|
                    #![trigger list@[j]]
                    0 <= j < k && tree@.contains(list@[j]) ==> seen@[other_end(
                        edges@[list@[j] as int],
                        v,
                    ) as int],
        {
            let i: usize = list[k];
            assert(list@.contains(i));
            let edge = edges[i];
            assert(edges@[i as int].tail < n && edges@[i as int].head < n);
            if fx::set_contains(tree, i) {
                let other: usize = if edge.tail == v {
                    edge.head
                } else {
                    edge.tail
                };
                if !seen[other] {
                    let ghost mid_seen = seen@;
                    let ghost mid_stack = stack@;
                    proof {
                        lemma_count_set(seen@, other as int);
                        assert(spec_slack(edges@[i as int], goal) == 0);
                        assert(rank@[v as int] == goal[v as int]);
                        assert(goal[other as int] <= 0x3000_0000_0000_0000);
                        assert(goal[v as int] <= 0x3000_0000_0000_0000);
                    }
                    seen.set(other, true);
                    let value: i64 = if edge.tail == v {
                        rank[v] + edge.minlen
                    } else {
                        rank[v] - edge.minlen
                    };
                    rank.set(other, value);
                    stack.push(other);
                    proof {
                        lemma_count_bound(seen@);
                        assert(stack@[mid_stack.len() as int] == other);
                        assert forall|x: usize| mid_stack.contains(x) implies stack@.contains(x) by {
                            assert(stack@[mid_stack.index_of(x)] == x);
                        }
                        assert forall|x: usize| #[trigger] stack1.contains(x) implies stack@.contains(
                            x,
                        ) by {
                            assert(mid_stack.contains(x));
                        }
                        assert forall|x: int|
                            0 <= x < n && #[trigger] seen@[x] && !seen0[x] implies stack@.contains(
                            x as usize,
                        ) by {
                            if x != other {
                                assert(mid_seen[x]);
                                assert(mid_stack.contains(x as usize));
                            }
                        }
                    }
                }
            }
        }
        proof {
            assert forall|x: int, y: int|
                0 <= x < n && seen@[x] && #[trigger] e(x, y) implies stack@.contains(x as usize) || (0
                <= y < n && seen@[y]) by {
                let i = choose|i: int|
                    0 <= i < edges@.len() && members(tree@)(i) && #[trigger] joins(edges@[i], x, y);
                assert(edges@[i].tail < n && edges@[i].head < n);
                if x == v {
                    assert(list@.contains(i as usize));
                    let j = list@.index_of(i as usize);
                    assert(list@[j] == i);
                    assert(seen@[other_end(edges@[list@[j] as int], v) as int]);
                } else if seen0[x] {
                    if stack0.contains(x as usize) {
                        let j = stack0.index_of(x as usize);
                        assert(stack1[j] == x as usize);
                        assert(stack1.contains(x as usize));
                    }
                }
            }
        }
    }
    proof {
        assert forall|v: int| 0 <= v < n implies #[trigger] rank@[v] == goal[v] by {
            assert(reaches(e, 0, v));
            let p = choose|p: Seq<int>| walk_between(e, p, 0, v);
            crate::graph::analysis::sese::lemma_seen_closed(e, seen@, p, p.len() - 1);
        }
        assert(rank@ =~= goal);
    }
}

/// The ranks with one side of a cut moved by `slack`: the side of node 0 stays in place.
pub open spec fn moved(rank: Seq<i64>, side: Set<usize>, slack: int) -> Seq<i64> {
    Seq::new(
        rank.len(),
        |v: int|
            if side.contains(0) {
                if side.contains(v as usize) {
                    rank[v]
                } else {
                    (rank[v] - slack) as i64
                }
            } else {
                if side.contains(v as usize) {
                    (rank[v] + slack) as i64
                } else {
                    rank[v]
                }
            },
    )
}

/// The border of the head's side of a tree edge is crossed by no other tree edge.
pub proof fn lemma_side_closed(n: int, edges: Seq<RankEdge>, tree: Set<usize>, leave: int, i: usize)
    requires
        is_rankable(n, edges),
        n <= usize::MAX + 1,
        tree.contains(i),
        i < edges.len(),
        i != leave,
        0 <= leave < edges.len(),
    ensures
        head_side(n, edges, tree, leave).contains(edges[i as int].tail) == head_side(
            n,
            edges,
            tree,
            leave,
        ).contains(edges[i as int].head),
{
    let e = links(edges, members_but(tree, leave));
    let side = head_side(n, edges, tree, leave);
    let edge = edges[i as int];
    let start = edges[leave].head as int;
    assert(members_but(tree, leave)(i as int));
    assert(joins(edges[i as int], edge.tail as int, edge.head as int));
    assert(joins(edges[i as int], edge.head as int, edge.tail as int));
    assert(e(edge.tail as int, edge.head as int) && e(edge.head as int, edge.tail as int));
    if side.contains(edge.tail) {
        let p = choose|p: Seq<int>| walk_between(e, p, start, edge.tail as int);
        lemma_extend(e, p, start, edge.tail as int, edge.head as int);
    }
    if side.contains(edge.head) {
        let p = choose|p: Seq<int>| walk_between(e, p, start, edge.head as int);
        lemma_extend(e, p, start, edge.head as int, edge.tail as int);
    }
}

/// What is not on the head's side of a tree edge hangs together with its tail.
proof fn lemma_other_side(n: int, edges: Seq<RankEdge>, tree: Set<usize>, leave: usize, v: int)
    requires
        is_rankable(n, edges),
        n <= usize::MAX + 1,
        edges.len() <= usize::MAX,
        leave < edges.len(),
        tree.contains(leave),
        forall|x: int| 0 <= x < n ==> #[trigger] reaches(links(edges, members(tree)), 0, x),
        0 <= v < n,
        !head_side(n, edges, tree, leave as int).contains(v as usize),
    ensures
        reaches(links(edges, members_but(tree, leave as int)), v, edges[leave as int].tail as int),
{
    let all = links(edges, members(tree));
    let e = links(edges, members_but(tree, leave as int));
    let side = head_side(n, edges, tree, leave as int);
    let (tail, head) = (edges[leave as int].tail as int, edges[leave as int].head as int);
    assert(edges[leave as int].tail < n && edges[leave as int].head < n);
    assert(reaches(all, 0, v));
    assert(reaches(all, 0, head));
    lemma_links_symmetric(edges, members(tree), 0, v);
    lemma_reaches_transitive(all, v, 0, head);
    let p = choose|p: Seq<int>| walk_between(all, p, v, head);
    lemma_trivial_walk(e, head);
    assert(side.contains(head as usize));
    let k = lemma_first_inside(p, side, 0);
    assert(k > 0);
    lemma_outside_walk(n, edges, tree, leave, p, k - 1);
    assert(step_at(all, p, k - 1));
    let j = choose|j: int|
        0 <= j < edges.len() && members(tree)(j) && #[trigger] joins(edges[j], p[k - 1], p[k]);
    assert(edges[j].tail < n && edges[j].head < n);
    if j != leave {
        lemma_side_closed(n, edges, tree, leave as int, j as usize);
    }
    assert(j == leave);
    lemma_trivial_walk(e, head);
    assert(p[k - 1] == tail);
}

/// The first node of a walk on a side.
proof fn lemma_first_inside(p: Seq<int>, side: Set<usize>, from: int) -> (k: int)
    requires
        0 <= from < p.len(),
        side.contains(p[p.len() - 1] as usize),
    ensures
        from <= k < p.len(),
        side.contains(p[k] as usize),
        forall|i: int| from <= i < k ==> !side.contains(#[trigger] p[i] as usize),
    decreases p.len() - from,
{
    if side.contains(p[from] as usize) {
        from
    } else {
        lemma_first_inside(p, side, from + 1)
    }
}

/// A walk over tree edges that stays off the head's side does not use the tree edge.
proof fn lemma_outside_walk(
    n: int,
    edges: Seq<RankEdge>,
    tree: Set<usize>,
    leave: usize,
    p: Seq<int>,
    i: int,
)
    requires
        is_rankable(n, edges),
        leave < edges.len(),
        is_walk(links(edges, members(tree)), p),
        0 <= i < p.len(),
        forall|k: int|
            0 <= k <= i ==> !head_side(n, edges, tree, leave as int).contains(
                #[trigger] p[k] as usize,
            ),
    ensures
        reaches(links(edges, members_but(tree, leave as int)), p[0], p[i]),
    decreases i,
{
    let e = links(edges, members_but(tree, leave as int));
    let all = links(edges, members(tree));
    if i == 0 {
        lemma_trivial_walk(e, p[0]);
    } else {
        lemma_outside_walk(n, edges, tree, leave, p, i - 1);
        assert(step_at(all, p, i - 1));
        let j = choose|j: int|
            0 <= j < edges.len() && members(tree)(j) && #[trigger] joins(edges[j], p[i - 1], p[i]);
        let head = edges[leave as int].head;
        assert(edges[leave as int].head < n);
        lemma_trivial_walk(e, head as int);
        assert(head_side(n, edges, tree, leave as int).contains(head));
        assert(p[i] as usize != head || p[i] != head as int);
        if j == leave {
            assert(p[i] == head || p[i - 1] == head);
            assert(!head_side(n, edges, tree, leave as int).contains(p[i] as usize));
            assert(!head_side(n, edges, tree, leave as int).contains(p[i - 1] as usize));
        }
        assert(members_but(tree, leave as int)(j));
        assert(joins(edges[j], p[i - 1], p[i]));
        let (x, y) = (p[0], p[i - 1]);
        let q = choose|q: Seq<int>| walk_between(e, q, x, y);
        lemma_extend(e, q, x, y, p[i]);
    }
}

/// Exchanging a tree edge for the tightest one that crosses its cut the other way keeps
/// the ranking feasible, and makes the new tree tight.
#[verifier::rlimit(40)]
proof fn lemma_exchange(
    n: int,
    edges: Seq<RankEdge>,
    rank: Seq<i64>,
    tree: Set<usize>,
    leave: usize,
    enter: usize,
)
    requires
        is_rankable(n, edges),
        1 <= n <= usize::MAX,
        edges.len() <= usize::MAX,
        rank.len() == n,
        ranks_near(rank),
        is_feasible(edges, rank),
        is_tight_tree(n, edges, rank, tree),
        leave < edges.len(),
        tree.contains(leave),
        enter < edges.len(),
        !head_side(n, edges, tree, leave as int).contains(edges[leave as int].tail),
        is_tightest(
            edges,
            rank,
            backward(edges, tree, head_side(n, edges, tree, leave as int)),
            enter as int,
        ),
    ensures
        ({
            let side = head_side(n, edges, tree, leave as int);
            let goal = moved(rank, side, spec_slack(edges[enter as int], rank));
            let next = tree.remove(leave).insert(enter);
            &&& goal[0] == rank[0]
            &&& is_feasible(edges, goal)
            &&& is_tight_tree(n, edges, goal, next)
        }),
{
    let side = head_side(n, edges, tree, leave as int);
    let slack = spec_slack(edges[enter as int], rank);
    let goal = moved(rank, side, slack);
    let next = tree.remove(leave).insert(enter);
    let e = links(edges, members_but(tree, leave as int));
    let f = links(edges, members(next));
    let (tail, head) = (edges[leave as int].tail as int, edges[leave as int].head as int);
    lemma_lengths(n, edges);
    assert(edges[enter as int].tail < n && edges[enter as int].head < n);
    assert(edges[leave as int].tail < n && edges[leave as int].head < n);
    assert(spec_slack(edges[enter as int], rank) >= 0);
    assert(slack <= 0x1000_0000_0000_0000) by {
        let (a, b) = (edges[enter as int].tail as int, edges[enter as int].head as int);
        assert forall|i: int| 0 <= i < edges.len() && #[trigger] members(tree)(i) implies spec_slack(
            edges[i],
            rank,
        ) == 0 by {
            assert(tree.contains(i as usize));
        }
        assert(reaches(links(edges, members(tree)), 0, a));
        assert(reaches(links(edges, members(tree)), 0, b));
        lemma_tight_spread(n, edges, members(tree), rank, a);
        lemma_tight_spread(n, edges, members(tree), rank, b);
    }
    lemma_trivial_walk(e, head);
    assert(side.contains(head as usize));
    assert forall|v: int| 0 <= v < n implies #[trigger] goal[v] == if side.contains(0) {
        if side.contains(v as usize) {
            rank[v] as int
        } else {
            rank[v] - slack
        }
    } else {
        if side.contains(v as usize) {
            rank[v] + slack
        } else {
            rank[v] as int
        }
    } by {
        assert(-0x3000_0000_0000_0000 <= rank[v] <= 0x3000_0000_0000_0000);
    }
    assert forall|i: int| 0 <= i < edges.len() implies spec_slack(#[trigger] edges[i], goal) >= 0 by {
        assert(edges[i].tail < n && edges[i].head < n);
        assert(spec_slack(edges[i], rank) >= 0);
        if crosses_back(edges[i], side) {
            if !tree.contains(i as usize) {
                assert(backward(edges, tree, side)(i));
            } else {
                if i != leave {
                    lemma_side_closed(n, edges, tree, leave as int, i as usize);
                }
                assert(false);
            }
        }
    }
    assert forall|i: usize| #[trigger] next.contains(i) implies i < edges.len() && spec_slack(
        edges[i as int],
        goal,
    ) == 0 by {
        if i != enter {
            assert(tree.contains(i));
            lemma_side_closed(n, edges, tree, leave as int, i);
            assert(edges[i as int].tail < n && edges[i as int].head < n);
        }
    }
    assert forall|v: int| 0 <= v < n implies #[trigger] reaches(f, 0, v) by {
        let (a, b) = (edges[enter as int].tail as int, edges[enter as int].head as int);
        assert(members(next)(enter as int));
        assert(joins(edges[enter as int], a, b) && joins(edges[enter as int], b, a));
        assert(f(a, b) && f(b, a));
        lemma_same_side(n, edges, tree, leave, 0, if side.contains(0) { a } else { b });
        lemma_same_side(n, edges, tree, leave, v, if side.contains(v as usize) { a } else { b });
        assert forall|i: int| 0 <= i < edges.len() && #[trigger] members_but(tree, leave as int)(i) implies members(
            next,
        )(i) by {}
        let here = if side.contains(0) { a } else { b };
        let there = if side.contains(v as usize) { a } else { b };
        lemma_links_monotone(edges, members_but(tree, leave as int), members(next), 0, here);
        lemma_links_symmetric(edges, members_but(tree, leave as int), v, there);
        lemma_links_monotone(edges, members_but(tree, leave as int), members(next), there, v);
        if here != there {
            lemma_trivial_walk(f, here);
            let p = choose|p: Seq<int>| walk_between(f, p, 0, here);
            lemma_extend(f, p, 0, here, there);
        }
        assert(reaches(f, 0, there));
        lemma_reaches_transitive(f, 0, there, v);
    }
}

/// Nodes on the same side of a tree edge hang together without it.
proof fn lemma_same_side(n: int, edges: Seq<RankEdge>, tree: Set<usize>, leave: usize, v: int, w: int)
    requires
        is_rankable(n, edges),
        n <= usize::MAX,
        edges.len() <= usize::MAX,
        leave < edges.len(),
        tree.contains(leave),
        forall|x: int| 0 <= x < n ==> #[trigger] reaches(links(edges, members(tree)), 0, x),
        0 <= v < n,
        0 <= w < n,
        head_side(n, edges, tree, leave as int).contains(v as usize) == head_side(
            n,
            edges,
            tree,
            leave as int,
        ).contains(w as usize),
    ensures
        reaches(links(edges, members_but(tree, leave as int)), v, w),
{
    let e = links(edges, members_but(tree, leave as int));
    let (tail, head) = (edges[leave as int].tail as int, edges[leave as int].head as int);
    if head_side(n, edges, tree, leave as int).contains(v as usize) {
        lemma_links_symmetric(edges, members_but(tree, leave as int), head, v);
        lemma_reaches_transitive(e, v, head, w);
    } else {
        lemma_other_side(n, edges, tree, leave, v);
        lemma_other_side(n, edges, tree, leave, w);
        lemma_links_symmetric(edges, members_but(tree, leave as int), w, tail);
        lemma_reaches_transitive(e, v, tail, w);
    }
}

/// The least rank is zero.
pub open spec fn is_normalized(rank: Seq<i64>) -> bool {
    &&& forall|v: int| 0 <= v < rank.len() ==> #[trigger] rank[v] >= 0
    &&& rank.len() > 0 ==> exists|v: int| 0 <= v < rank.len() && #[trigger] rank[v] == 0
}

/// All ranks are lower by `shift`.
pub open spec fn is_shifted(before: Seq<i64>, after: Seq<i64>, shift: int) -> bool {
    &&& after.len() == before.len()
    &&& forall|v: int| 0 <= v < before.len() ==> #[trigger] after[v] == before[v] - shift
}

/// Shifts all ranks so that the least is zero.
fn normalize(rank: &mut Vec<i64>)
    requires
        forall|v: int|
            0 <= v < old(rank)@.len() ==> -0x3000_0000_0000_0000 <= #[trigger] old(rank)@[v]
                <= 0x3000_0000_0000_0000,
    ensures
        final(rank)@.len() == old(rank)@.len(),
        is_normalized(final(rank)@),
        exists|shift: int| #[trigger] is_shifted(old(rank)@, final(rank)@, shift),
{
    let n: usize = rank.len();
    let ghost before = rank@;
    if n == 0 {
        assert(is_shifted(before, rank@, 0));
        return;
    }
    let mut least: i64 = rank[0];
    for v in 0..n
        invariant
            n == before.len(),
            rank@ == before,
            forall|x: int| 0 <= x < v ==> least <= #[trigger] before[x],
            exists|x: int| 0 <= x < n && #[trigger] before[x] == least,
    {
        if rank[v] < least {
            least = rank[v];
            assert(before[v as int] == least);
        }
    }
    let ghost at = choose|x: int| 0 <= x < n && #[trigger] before[x] == least;
    for v in 0..n
        invariant
            n == before.len(),
            rank@.len() == n,
            0 <= at < n,
            before[at] == least,
            forall|x: int|
                0 <= x < n ==> -0x3000_0000_0000_0000 <= #[trigger] before[x]
                    <= 0x3000_0000_0000_0000,
            forall|x: int|
                0 <= x < n ==> #[trigger] rank@[x] == if x < v {
                    before[x] - least
                } else {
                    before[x] as int
                },
    {
        assert(before[v as int] >= -0x3000_0000_0000_0000 && before[at] >= -0x3000_0000_0000_0000);
        let moved: i64 = rank[v] - least;
        rank.set(v, moved);
    }
    proof {
        assert(rank@[at] == 0);
        assert forall|v: int| 0 <= v < n implies #[trigger] rank@[v] >= 0 by {
            assert(least <= before[v]);
        }
        assert(is_shifted(before, rank@, least as int));
    }
}

/// A shift of all ranks changes no slack.
proof fn lemma_shifted(edges: Seq<RankEdge>, n: int, before: Seq<i64>, after: Seq<i64>, shift: int)
    requires
        is_rankable(n, edges),
        before.len() == n,
        is_shifted(before, after, shift),
        is_feasible(edges, before),
    ensures
        is_feasible(edges, after),
{
    assert forall|i: int| 0 <= i < edges.len() implies spec_slack(#[trigger] edges[i], after) >= 0 by {
        assert(edges[i].tail < n && edges[i].head < n);
        assert(spec_slack(edges[i], before) >= 0);
    }
}

/// Centres nodes whose in- and out-weight are equal within their feasible rank
/// window — a cheap balancing that reduces lopsided columns.
#[verifier::rlimit(40)]
fn balance(n: usize, edges: &Vec<RankEdge>, rank: &mut Vec<i64>)
    requires
        is_rankable(n as int, edges@),
        old(rank)@.len() == n,
        is_feasible(edges@, old(rank)@),
        forall|v: int|
            0 <= v < n ==> 0 <= #[trigger] old(rank)@[v] <= 0x1000_0000_0000_0000,
    ensures
        final(rank)@.len() == n,
        is_feasible(edges@, final(rank)@),
        forall|v: int|
            0 <= v < n ==> 0 <= #[trigger] final(rank)@[v] <= 0x1000_0000_0000_0000,
        exists|states: Seq<Seq<i64>>| #[trigger]
            is_balancing(n as int, edges@, states) && states[0] == old(rank)@ && states.last()
                == final(rank)@,
{
    let ghost start = rank@;
    let ghost mut states: Seq<Seq<i64>> = seq![rank@];
    for v in 0..n
        invariant
            is_rankable(n as int, edges@),
            rank@.len() == n,
            is_feasible(edges@, rank@),
            states.len() == v + 1,
            states[0] == start,
            states.last() == rank@,
            forall|u: int| 0 <= u < v ==> #[trigger] centres_at(edges@, states, u),
            forall|x: int| 0 <= x < n ==> 0 <= #[trigger] rank@[x] <= 0x1000_0000_0000_0000,
    {
        let mut in_weight: i64 = 0;
        let mut out_weight: i64 = 0;
        let mut lo: Option<i64> = None;
        let mut hi: Option<i64> = None;
        proof {
            lemma_lengths(n as int, edges@);
            assert forall|i: int| 0 <= i < edges@.len() implies (#[trigger] edges@[i]).weight >= 0 by {}
        }
        for i in 0..edges.len()
            invariant
                is_rankable(n as int, edges@),
                v < n,
                rank@.len() == n,
                forall|i: int|
                    0 <= i < edges@.len() ==> 0 <= (#[trigger] edges@[i]).minlen
                        <= 0x0800_0000_0000_0000,
                forall|i: int| 0 <= i < edges@.len() ==> (#[trigger] edges@[i]).weight >= 0,
                is_feasible(edges@, rank@),
                forall|x: int| 0 <= x < n ==> 0 <= #[trigger] rank@[x] <= 0x1000_0000_0000_0000,
                0 <= in_weight <= total_weight(edges@.subrange(0, i as int)),
                0 <= out_weight <= total_weight(edges@.subrange(0, i as int)),
                in_weight == weight_in(edges@, v as int, i as nat),
                out_weight == weight_out(edges@, v as int, i as nat),
                lo matches Some(l) ==> is_earliest(edges@, rank@, v as int, i as int, l as int),
                hi matches Some(h) ==> is_latest(edges@, rank@, v as int, i as int, h as int),
                lo is None <==> forall|k: int|
                    0 <= k < i ==> (#[trigger] edges@[k]).head != v,
                hi is None <==> forall|k: int|
                    0 <= k < i ==> (#[trigger] edges@[k]).tail != v,
                lo matches Some(l) ==> 0 <= l <= rank@[v as int],
                hi matches Some(h) ==> rank@[v as int] <= h <= 0x1000_0000_0000_0000,
        {
            let e = edges[i];
            proof {
                assert(edges@[i as int].tail < n && edges@[i as int].head < n);
                assert(spec_slack(edges@[i as int], rank@) >= 0);
                lemma_weight_prefix(edges@, (i + 1) as nat);
                assert(edges@.subrange(0, i + 1).drop_last() =~= edges@.subrange(0, i as int));
                assert(rank@[e.tail as int] <= 0x1000_0000_0000_0000 && rank@[e.head as int]
                    <= 0x1000_0000_0000_0000);
                assert(rank@[e.tail as int] >= 0 && rank@[e.head as int] >= 0);
            }
            if e.tail == v {
                out_weight = out_weight + e.weight;
                let reach: i64 = rank[e.head] - e.minlen;
                hi = match hi {
                    Some(h) => {
                        if reach < h {
                            Some(reach)
                        } else {
                            Some(h)
                        }
                    },
                    None => Some(reach),
                };
            }
            if e.head == v {
                in_weight = in_weight + e.weight;
                let reach: i64 = rank[e.tail] + e.minlen;
                lo = match lo {
                    Some(l) => {
                        if reach > l {
                            Some(reach)
                        } else {
                            Some(l)
                        }
                    },
                    None => Some(reach),
                };
            }
        }
        let ghost before = rank@;
        if in_weight == out_weight {
            match (lo, hi) {
                (Some(lo), Some(hi)) => {
                    if lo <= hi {
                        let middle: i64 = (lo + hi) / 2;
                        rank.set(v, middle);
                        proof {
                            assert(lo <= middle <= hi);
                            assert forall|i: int| 0 <= i < edges@.len() implies spec_slack(
                                #[trigger] edges@[i],
                                rank@,
                            ) >= 0 by {
                                assert(edges@[i].tail < n && edges@[i].head < n && edges@[i].tail
                                    != edges@[i].head);
                                assert(spec_slack(edges@[i], before) >= 0);
                            }
                        }
                    }
                },
                _ => {},
            }
        }
        proof {
            assert(is_centred(edges@, before, v as int, rank@)) by {
                match (lo, hi) {
                    (Some(l), Some(h)) => {
                        assert(is_earliest(edges@, before, v as int, edges@.len() as int, l as int));
                        assert(is_latest(edges@, before, v as int, edges@.len() as int, h as int));
                    },
                    _ => {},
                }
            }
            let more = states.push(rank@);
            assert forall|u: int| 0 <= u < v + 1 implies #[trigger] centres_at(edges@, more, u) by {
                if u < v {
                    assert(centres_at(edges@, states, u));
                }
            }
            states = more;
        }
    }
    assert(is_balancing(n as int, edges@, states));
}

/// Ranks the nodes `0..n` so that no edge is too short and the least rank is zero. Where
/// the exchanges end before their limit, no such ranking has a lower total cost.
#[verifier::rlimit(40)]
pub fn network_simplex(n: usize, edges: &Vec<RankEdge>) -> (rank: Vec<i64>)
    requires
        is_rankable(n as int, edges@),
        has_no_cycle(n as int, edges@),
        edges@.len() == 0 || is_connected(n as int, edges@),
        n * edges@.len() + 128 <= usize::MAX,
    ensures
        rank@.len() == n,
        is_feasible(edges@, rank@),
        is_normalized(rank@),
        forall|v: int| 0 <= v < n ==> #[trigger] rank@[v] <= 0x2000_0000_0000_0000,
        edges@.len() == 0 ==> forall|v: int| 0 <= v < n ==> #[trigger] rank@[v] == 0,
        edges@.len() > 0 ==> exists|s: Simplex| #[trigger]
            is_simplex(n as int, edges@, s, rank@) && (s.run.len() <= most_exchanges(
                n as int,
                edges@,
            ) ==> is_cheapest(n as int, edges@, rank@)),
{
    let mut rank = init_rank(n, edges);
    let ghost far = longest(edges@);
    let total: usize = edges.len();
    if edges.len() == 0 {
        proof {
            assert(far == 0);
            assert forall|v: int| 0 <= v < n implies #[trigger] rank@[v] == 0 by {
                assert(rank@[v] <= n * far);
                assert(n * far == 0) by (nonlinear_arith)
                    requires
                        far == 0,
                ;
            }
            if n > 0 {
                assert(rank@[0] == 0);
            }
        }
        return rank;
    }
    proof {
        assert(edges@[0].tail < n);
        lemma_lengths(n as int, edges@);
    }
    let mut tree = feasible_tree(n, edges, &mut rank);
    let ghost shifts = choose|shifts: Seq<Seq<i64>>| #[trigger]
        is_shifting(n as int, edges@, shifts) && shifts.last() == rank@;
    let ghost search = choose|states: Seq<Flooding>| #[trigger]
        is_flood(edges@, tight_edges(edges@, rank@), 0, states) && states.last().stack.len() == 0
            && states.last().used == tree@;
    let ghost mut run: Seq<Basis> = seq![Basis { tree: tree@, rank: rank@ }];
    let ghost span = n * far;
    let ghost anchor = rank@[0];
    // Each exchange replaces one negative-cut tree edge with a min-slack edge
    // crossing the same cut. Bounded to guarantee termination on pathological
    // input; real layered graphs converge in far fewer steps.
    assert(n * total <= usize::MAX - 128);
    let product: usize = n * total;
    let cap: usize = if product > 64 {
        product + 64
    } else {
        128
    };
    let mut round: usize = 0;
    let mut settled = false;
    assert(is_run(n as int, edges@, run));
    while round < cap && !settled
        invariant
            is_rankable(n as int, edges@),
            n >= 1,
            total == edges@.len(),
            far == longest(edges@),
            span == n * far,
            0 <= span <= 0x0800_0000_0000_0000,
            -4 * span <= anchor <= 4 * span,
            rank@.len() == n,
            rank@[0] == anchor,
            is_feasible(edges@, rank@),
            is_spanning(n as int, edges@, rank@, tree@),
            is_run(n as int, edges@, run),
            run.last() == (Basis { tree: tree@, rank: rank@ }),
            run[0].rank == shifts.last(),
            run[0].tree == search.last().used,
            settled ==> is_settled(n as int, edges@, tree@) && run.len() <= round,
            !settled ==> run.len() == round + 1,
            round <= cap,
        decreases
                cap - round + if settled {
                    0int
                } else {
                    1
                },
    {
        proof {
            lemma_tree_near(n as int, edges@, rank@, tree@, span);
        }
        let cut = cut_values(n, edges, &tree);
        let mut leave: Option<usize> = None;
        for te in 0..total
            invariant
                total == edges@.len(),
                match leave {
                    Some(l) => l < te && cut@.contains_key(l) && cut@[l] < 0 && forall|t: usize|
                        t < l && #[trigger] cut@.contains_key(t) ==> cut@[t] >= 0,
                    None => forall|t: usize|
                        t < te && #[trigger] cut@.contains_key(t) ==> cut@[t] >= 0,
                },
        {
            if leave.is_none() {
                match fx::map_get(&cut, te) {
                    Some(value) => {
                        if *value < 0 {
                            leave = Some(te);
                        }
                    },
                    None => {},
                }
            }
        }
        match leave {
            Some(leave) => {
                assert(tree@.contains(leave));
                match enter_edge(n, edges, &tree, leave, &rank) {
                    Some((slack, enter)) => {
                        let ghost side = head_side(n as int, edges@, tree@, leave as int);
                        let ghost goal = moved(rank@, side, slack as int);
                        proof {
                            lemma_tail_apart(n as int, edges@, tree@, leave);
                            lemma_tree_exchange(n as int, edges@, tree@, leave, enter);
                            lemma_leaving(n as int, edges@, tree@, cut@, leave);
                            lemma_exchange(n as int, edges@, rank@, tree@, leave, enter);
                            lemma_tree_near(
                                n as int,
                                edges@,
                                goal,
                                tree@.remove(leave).insert(enter),
                                span,
                            );
                        }
                        fx::set_remove(&mut tree, leave);
                        fx::set_insert(&mut tree, enter);
                        let ghost before = run.last();
                        tighten(n, edges, &tree, &mut rank, Ghost(goal));
                        proof {
                            let next = Basis { tree: tree@, rank: rank@ };
                            assert(gives_way(n as int, edges@, before, leave, enter, next));
                            lemma_next_exchange(n as int, edges@, run, next);
                            run = run.push(next);
                        }
                    },
                    None => {
                        proof {
                            lemma_some_backward(n as int, edges@, tree@, leave);
                            assert(false);
                        }
                        settled = true;
                    },
                }
            },
            None => {
                settled = true;
                proof {
                    assert forall|te: usize| #[trigger] tree@.contains(te) implies cut_weight(
                        edges@,
                        head_side(n as int, edges@, tree@, te as int),
                        edges@.len(),
                    ) >= 0 by {
                        assert(cut@.contains_key(te));
                    }
                }
            },
        }
        round = round + 1;
    }
    proof {
        lemma_tree_near(n as int, edges@, rank@, tree@, span);
        assert forall|v: int| 0 <= v < n implies -0x3000_0000_0000_0000 <= #[trigger] rank@[v]
            <= 0x3000_0000_0000_0000 by {}
    }
    let ghost tight = rank@;
    normalize(&mut rank);
    proof {
        let shift = choose|shift: int| #[trigger] is_shifted(tight, rank@, shift);
        lemma_shifted(edges@, n as int, tight, rank@, shift);
        let z = choose|v: int| 0 <= v < n && #[trigger] rank@[v] == 0;
        assert(rank@[z] == tight[z] - shift);
        assert forall|v: int| 0 <= v < n implies 0 <= #[trigger] rank@[v]
            <= 0x1000_0000_0000_0000 by {
            assert(rank@[v] == tight[v] - shift);
            assert(rank@[v] >= 0);
            assert(shift == tight[z]);
            lemma_apart(tight[v] - anchor, tight[z] - anchor, span);
        }
    }
    let ghost level = rank@;
    balance(n, edges, &mut rank);
    let ghost balanced = rank@;
    let ghost states = choose|states: Seq<Seq<i64>>| #[trigger]
        is_balancing(n as int, edges@, states) && states[0] == level && states.last() == balanced;
    proof {
        assert forall|v: int| 0 <= v < n implies -0x3000_0000_0000_0000 <= #[trigger] rank@[v]
            <= 0x3000_0000_0000_0000 by {
            assert(balanced[v] <= 0x1000_0000_0000_0000);
        }
    }
    normalize(&mut rank);
    proof {
        let shift = choose|shift: int| #[trigger] is_shifted(balanced, rank@, shift);
        lemma_shifted(edges@, n as int, balanced, rank@, shift);
        let z = choose|v: int| 0 <= v < n && #[trigger] rank@[v] == 0;
        assert forall|v: int| 0 <= v < n implies #[trigger] rank@[v] <= 0x2000_0000_0000_0000 by {
            assert(balanced[v] <= 0x1000_0000_0000_0000 && balanced[z] >= 0);
        }
        let s = Simplex { shifts, search, run, balancing: states };
        assert(is_simplex(n as int, edges@, s, rank@));
        if s.run.len() <= most_exchanges(n as int, edges@) {
            law_simplex_finds_the_cheapest(n as int, edges@, s, rank@);
        }
    }
    rank
}

/// The first tree edge with a negative value in a table of cut values.
proof fn lemma_leaving(n: int, edges: Seq<RankEdge>, tree: Set<usize>, cut: Map<usize, i64>, leave: usize)
    requires
        forall|te: usize| #[trigger] cut.contains_key(te) <==> te < edges.len() && tree.contains(te),
        forall|te: usize|
            te < edges.len() && tree.contains(te) ==> #[trigger] cut[te] == cut_weight(
                edges,
                head_side(n, edges, tree, te as int),
                edges.len(),
            ),
        cut.contains_key(leave),
        cut[leave] < 0,
        forall|t: usize| t < leave && #[trigger] cut.contains_key(t) ==> cut[t] >= 0,
    ensures
        is_leaving(n, edges, tree, leave),
{
    assert forall|te: usize| #[trigger] tree.contains(te) && te < leave implies cut_weight(
        edges,
        head_side(n, edges, tree, te as int),
        edges.len(),
    ) >= 0 by {
        assert(cut.contains_key(te));
        assert(cut[te] >= 0);
    }
}

proof fn lemma_apart(a: int, b: int, span: int)
    requires
        -span <= a <= span,
        -span <= b <= span,
        span <= 0x0800_0000_0000_0000,
    ensures
        a - b <= 0x1000_0000_0000_0000,
{
}

/// With a tight tree, all ranks are near that of node 0.
proof fn lemma_tree_near(
    n: int,
    edges: Seq<RankEdge>,
    rank: Seq<i64>,
    tree: Set<usize>,
    span: int,
)
    requires
        is_rankable(n, edges),
        1 <= n <= usize::MAX,
        edges.len() <= usize::MAX,
        rank.len() == n,
        is_tight_tree(n, edges, rank, tree),
        span == n * longest(edges),
        -4 * span <= rank[0] <= 4 * span,
    ensures
        ranks_near(rank),
        forall|v: int|
            0 <= v < n ==> -span <= #[trigger] rank[v] - rank[0] <= span && -5 * span <= rank[v]
                <= 5 * span,
{
    assert forall|v: int| 0 <= v < n implies -span <= #[trigger] rank[v] - rank[0] <= span && -5
        * span <= rank[v] <= 5 * span by {
        assert forall|i: int| 0 <= i < edges.len() && #[trigger] members(tree)(i) implies spec_slack(
            edges[i],
            rank,
        ) == 0 by {
            assert(tree.contains(i as usize));
        }
        assert(reaches(links(edges, members(tree)), 0, v));
        lemma_tight_spread(n, edges, members(tree), rank, v);
    }
    assert forall|v: int| 0 <= v < n implies -0x3000_0000_0000_0000 <= #[trigger] rank[v]
        <= 0x3000_0000_0000_0000 by {}
}

/// What a layout edge demands of the ranks of its ends.
pub open spec fn demanded(data: EdgeLayoutData) -> int {
    if data.minlen > 0 {
        data.minlen as int
    } else {
        0
    }
}

/// The steps over the edges of a layout, in both directions.
pub open spec fn neighbours_of(
    edges: Map<usize, EdgeEntry<usize, EdgeLayoutData>>,
) -> spec_fn(usize, usize) -> bool {
    |a: usize, b: usize|
        exists|e: usize| #[trigger]
            edges.contains_key(e) && ((edges[e].from == a && edges[e].to == b) || (edges[e].from
                == b && edges[e].to == a))
}

/// Any node can be reached from any other over edges in either direction.
pub open spec fn hangs_together(state: LayoutState) -> bool {
    forall|a: usize, b: usize|
        state.nodes.contains_key(a) && state.nodes.contains_key(b) ==> #[trigger] reaches(
            neighbours_of(state.edges),
            a,
            b,
        )
}

/// Lengths and weights are small enough for the ranks and sums to be machine integers.
pub open spec fn has_small_numbers(state: LayoutState) -> bool {
    &&& forall|e: usize| #[trigger]
        state.edges.contains_key(e) ==> state.next_node * state.edges[e].data.minlen
            <= 0x0800_0000_0000_0000 && state.next_edge * state.edges[e].data.weight
            <= 0x7fff_ffff_ffff_ffff
    &&& state.next_edge <= 0x7fff_ffff_ffff_ffff
    &&& state.next_node * state.next_edge + 128 <= usize::MAX
}

/// `after` is `before` with new ranks.
pub open spec fn only_ranks_differ(before: LayoutState, after: LayoutState) -> bool {
    &&& after.edges == before.edges
    &&& after.next_node == before.next_node
    &&& after.next_edge == before.next_edge
    &&& after.nodes.dom() == before.nodes.dom()
    &&& forall|n: usize| #[trigger]
        before.nodes.contains_key(n) ==> {
            &&& after.nodes[n].edges == before.nodes[n].edges
            &&& after.nodes[n].data == (NodeLayoutData {
                rank: after.nodes[n].data.rank,
                ..before.nodes[n].data
            })
        }
}

/// Every edge but a loop leads down by at least as many ranks as it demands.
pub open spec fn ranks_fit(state: LayoutState) -> bool {
    forall|e: usize| #[trigger]
        state.edges.contains_key(e) && state.edges[e].from != state.edges[e].to
            ==> state.nodes[state.edges[e].to].data.rank
            - state.nodes[state.edges[e].from].data.rank >= demanded(state.edges[e].data)
}

/// Ranks are not negative, and the least is zero.
pub open spec fn ranks_start_at_zero(state: LayoutState) -> bool {
    &&& forall|n: usize| #[trigger]
        state.nodes.contains_key(n) ==> 0 <= state.nodes[n].data.rank <= 0x2000_0000_0000_0000
    &&& (exists|n: usize| state.nodes.contains_key(n)) ==> exists|n: usize| #[trigger]
        state.nodes.contains_key(n) && state.nodes[n].data.rank == 0
}

/// The layout edge `e` between the positions of its ends in `ids`.
pub open spec fn rank_edge(ids: Seq<usize>, e: EdgeEntry<usize, EdgeLayoutData>) -> RankEdge {
    RankEdge {
        tail: ids.index_of(e.from) as usize,
        head: ids.index_of(e.to) as usize,
        minlen: demanded(e.data) as i64,
        weight: if e.data.weight > 1 {
            e.data.weight
        } else {
            1
        },
    }
}

/// The layout edges `list` without the loops, between the positions of their ends in
/// `ids`.
pub open spec fn rank_edges(state: LayoutState, ids: Seq<usize>, list: Seq<usize>) -> Seq<RankEdge>
    decreases list.len(),
{
    if list.len() == 0 {
        Seq::empty()
    } else {
        let rest = rank_edges(state, ids, list.drop_last());
        let e = state.edges[list.last()];
        if e.from == e.to {
            rest
        } else {
            rest.push(rank_edge(ids, e))
        }
    }
}

/// The ranks of the nodes `ids`.
pub open spec fn ranks_of(state: LayoutState, ids: Seq<usize>) -> Seq<i64> {
    Seq::new(ids.len(), |k: int| state.nodes[ids[k]].data.rank)
}

/// The nodes `ids` have the ranks that the network simplex gives them for the edges
/// `list`. Without an edge, all are zero; where the exchanges end before their limit, no
/// feasible ranking has a lower total cost.
pub open spec fn has_simplex_ranks(
    state: LayoutState,
    ids: Seq<usize>,
    list: Seq<usize>,
) -> bool {
    let n = ids.len() as int;
    let edges = rank_edges(state, ids, list);
    let rank = ranks_of(state, ids);
    if edges.len() == 0 {
        forall|k: int| 0 <= k < n ==> #[trigger] rank[k] == 0
    } else {
        exists|s: Simplex| #[trigger]
            is_simplex(n, edges, s, rank) && (s.run.len() <= most_exchanges(n, edges)
                ==> is_cheapest(n, edges, rank))
    }
}

/// The nodes have the ranks that the network simplex gives them, taking nodes and edges in
/// the order of their identifiers.
pub open spec fn is_simplex_layout(state: LayoutState) -> bool {
    exists|ids: Seq<usize>, list: Seq<usize>|
        {
            &&& #[trigger] lists_nodes(state, ids)
            &&& #[trigger] lists_edges(state, list)
            &&& has_simplex_ranks(state, ids, list)
        }
}

/// `edge` is the layout edge `e` between the positions of its ends in `ids`.
spec fn builds_edge(ids: Seq<usize>, e: EdgeEntry<usize, EdgeLayoutData>, edge: RankEdge) -> bool {
    &&& edge.tail < ids.len() && edge.head < ids.len()
    &&& ids[edge.tail as int] == e.from
    &&& ids[edge.head as int] == e.to
    &&& e.from != e.to
    &&& edge.minlen == demanded(e.data)
    &&& edge.weight == if e.data.weight > 1 {
        e.data.weight as int
    } else {
        1
    }
}

/// `edges` are the layout edges `list` without the loops, between the positions of their
/// ends in `ids`.
spec fn builds_rank_edges(
    state: LayoutState,
    ids: Seq<usize>,
    list: Seq<usize>,
    from: Seq<usize>,
    edges: Seq<RankEdge>,
) -> bool {
    &&& from.len() == edges.len()
    &&& edges.len() <= list.len()
    &&& forall|i: int|
        #![trigger edges[i]]
        #![trigger from[i]]
        0 <= i < edges.len() ==> state.edges.contains_key(from[i]) && builds_edge(
            ids,
            state.edges[from[i]],
            edges[i],
        )
    &&& forall|k: int|
        0 <= k < list.len() && state.edges[#[trigger] list[k]].from != state.edges[list[k]].to
            ==> from.contains(list[k])
}

proof fn lemma_total_weight(edges: Seq<RankEdge>, most: int)
    requires
        forall|i: int| 0 <= i < edges.len() ==> 0 <= (#[trigger] edges[i]).weight <= most,
    ensures
        0 <= total_weight(edges) <= edges.len() * most,
    decreases edges.len(),
{
    if edges.len() > 0 {
        let front = edges.drop_last();
        assert forall|i: int| 0 <= i < front.len() implies 0 <= (#[trigger] front[i]).weight <= most by {
            assert(edges[i].weight <= most);
        }
        lemma_total_weight(front, most);
        assert(edges[edges.len() - 1].weight <= most);
        assert(edges.len() * most == front.len() * most + most) by (nonlinear_arith)
            requires
                edges.len() == front.len() + 1,
        ;
    } else {
        assert(0 * most == 0) by (nonlinear_arith);
    }
}

proof fn lemma_longest_is_some(edges: Seq<RankEdge>)
    ensures
        longest(edges) == 0 || exists|i: int|
            0 <= i < edges.len() && (#[trigger] edges[i]).minlen == longest(edges),
    decreases edges.len(),
{
    if edges.len() > 0 {
        lemma_longest_is_some(edges.drop_last());
        let rest = longest(edges.drop_last());
        if longest(edges) == rest && rest != 0 {
            let i = choose|i: int|
                0 <= i < edges.drop_last().len() && (#[trigger] edges.drop_last()[i]).minlen == rest;
            assert(edges[i].minlen == rest);
        } else if longest(edges) != rest {
            assert(edges[edges.len() - 1].minlen == longest(edges));
        }
    }
}

/// Assigns `rank` to every node of `graph` (min rank normalised to 0).
#[verifier::rlimit(40)]
pub fn assign_ranks(graph: &mut LayoutGraph)
    requires
        old(graph).wf(),
        state_of(old(graph)).is_sound(),
        is_acyclic(old(graph).edge_map()),
        hangs_together(state_of(old(graph))) || forall|e: usize| !#[trigger] old(graph).edge_map().contains_key(e),
        has_small_numbers(state_of(old(graph))),
    ensures
        final(graph).wf(),
        only_ranks_differ(state_of(old(graph)), state_of(final(graph))),
        ranks_fit(state_of(final(graph))),
        ranks_start_at_zero(state_of(final(graph))),
        is_simplex_layout(state_of(final(graph))),
{
    let ghost before = state_of(graph);
    let ids = graph.node_ids();
    proof {
        graph.lemma_members();
    }
    if ids.len() == 0 {
        proof {
            assert forall|n: usize| !#[trigger] before.nodes.contains_key(n) by {
                if before.nodes.contains_key(n) {
                    assert(ids@.contains(n));
                }
            }
            assert forall|e: usize| !#[trigger] before.edges.contains_key(e) by {
                if before.edges.contains_key(e) {
                    assert(before.nodes.contains_key(before.edges[e].from));
                }
            }
            let none: Seq<usize> = Seq::empty();
            assert(rank_edges(before, none, none).len() == 0);
            assert(lists_nodes(before, none) && lists_edges(before, none));
            assert(has_simplex_ranks(before, none, none));
        }
        return;
    }
    let index = index_ids(&ids);
    let list = graph.edge_ids();
    let mut edges: Vec<RankEdge> = Vec::new();
    let mut from: Ghost<Seq<usize>> = Ghost(Seq::empty());
    for k in 0..list.len()
        invariant
            graph.wf(),
            before == state_of(graph),
            before.is_sound(),
            ids@ == graph.spec_nodes(),
            list@ == graph.spec_edges(),
            numbers_list(index@, ids@),
            builds_rank_edges(before, ids@, list@.subrange(0, k as int), from@, edges@),
            edges@ == rank_edges(before, ids@, list@.subrange(0, k as int)),
    {
        let id: usize = list[k];
        proof {
            graph.lemma_members();
            assert(graph.spec_edges().contains(id));
            assert(before.edges.contains_key(id));
            assert(graph.spec_nodes().contains(before.edges[id].from));
            assert(graph.spec_nodes().contains(before.edges[id].to));
        }
        let edge = graph.get_edge(id).unwrap();
        let data = *edge.data();
        let tail: usize = position(&index, Ghost(ids@), edge.from_id()).unwrap();
        let head: usize = position(&index, Ghost(ids@), edge.to_id()).unwrap();
        let ghost edges0 = edges@;
        let ghost from0 = from@;
        let ghost done = list@.subrange(0, k as int);
        let ghost more = list@.subrange(0, k + 1);
        if tail != head {
            edges.push(
                RankEdge {
                    tail,
                    head,
                    minlen: if data.minlen > 0 {
                        data.minlen
                    } else {
                        0
                    },
                    weight: if data.weight > 1 {
                        data.weight
                    } else {
                        1
                    },
                },
            );
            from = Ghost(from@.push(id));
        }
        proof {
            assert(more[k as int] == id);
            assert(more.drop_last() =~= done);
            assert(ids@.no_duplicates());
            assert(ids@.index_of(before.edges[id].from) == tail);
            assert(ids@.index_of(before.edges[id].to) == head);
            assert forall|x: usize| done.contains(x) implies more.contains(x) by {
                assert(more[done.index_of(x)] == x);
            }
            assert forall|x: usize| from0.contains(x) implies from@.contains(x) by {
                assert(from@[from0.index_of(x)] == x);
            }
            if tail != head {
                assert(from@[from0.len() as int] == id);
                assert(before.edges[id].from != before.edges[id].to) by {
                    assert(ids@[tail as int] == before.edges[id].from);
                    assert(ids@[head as int] == before.edges[id].to);
                    assert(index@[ids@[tail as int].spec_index()] == tail);
                    assert(index@[ids@[head as int].spec_index()] == head);
                }
            }
            assert forall|i: int|
                #![trigger edges@[i]]
                #![trigger from@[i]]
                0 <= i < edges@.len() implies before.edges.contains_key(
                from@[i],
            ) && builds_edge(ids@, before.edges[from@[i]], edges@[i]) by {
                if i < edges0.len() {
                    assert(edges@[i] == edges0[i]);
                }
            }
            assert forall|j: int|
                0 <= j < more.len() && before.edges[#[trigger] more[j]].from
                    != before.edges[more[j]].to implies from@.contains(more[j]) by {
                if j < k {
                    assert(done[j] == more[j]);
                    assert(from0.contains(done[j]));
                }
            }
            assert(builds_rank_edges(before, ids@, more, from@, edges@));
        }
    }
    let n: usize = ids.len();
    let total: usize = edges.len();
    proof {
        assert(list@.subrange(0, list@.len() as int) =~= list@);
        lemma_rank_edges_ok(before, graph, ids@, list@, from@, edges@);
    }
    let ranks = network_simplex(n, &edges);
    for i in 0..n
        invariant
            n == ids@.len(),
            ranks@.len() == n,
            graph.wf(),
            ids@.no_duplicates(),
            forall|k: int| 0 <= k < n ==> before.nodes.contains_key(#[trigger] ids@[k]),
            only_ranks_differ(before, state_of(graph)),
            forall|k: int| 0 <= k < i ==> graph.node_map()[#[trigger] ids@[k]].data.rank == ranks@[k],
    {
        let ghost mid = state_of(graph);
        let id: usize = ids[i];
        assert(before.nodes.contains_key(ids@[i as int]));
        assert(mid.nodes.dom().contains(id));
        {
            let mut node = graph.get_node_mut(id).unwrap();
            let data = node.data();
            data.rank = ranks[i];
        }
        proof {
            let after = state_of(graph);
            assert(after.nodes.dom() =~= before.nodes.dom());
            assert forall|k: int| 0 <= k < i + 1 implies graph.node_map()[#[trigger] ids@[k]].data.rank
                == ranks@[k] by {
                if k < i {
                    assert(ids@[k] != ids@[i as int]);
                }
            }
        }
    }
    proof {
        let after = state_of(graph);
        assert forall|e: usize| #[trigger]
            after.edges.contains_key(e) && after.edges[e].from != after.edges[e].to implies after.nodes[after.edges[e].to].data.rank
            - after.nodes[after.edges[e].from].data.rank >= demanded(after.edges[e].data) by {
            assert(list@.contains(e));
            let k = list@.index_of(e);
            assert(from@.contains(list@[k]));
            let i = from@.index_of(e);
            assert(spec_slack(edges@[i], ranks@) >= 0);
            assert(graph.node_map()[ids@[edges@[i].tail as int]].data.rank
                == ranks@[edges@[i].tail as int]);
            assert(graph.node_map()[ids@[edges@[i].head as int]].data.rank
                == ranks@[edges@[i].head as int]);
        }
        assert forall|m: usize| #[trigger] after.nodes.contains_key(m) implies 0
            <= after.nodes[m].data.rank <= 0x2000_0000_0000_0000 by {
            assert(before.nodes.dom().contains(m));
            assert(ids@.contains(m));
            let k = ids@.index_of(m);
            assert(graph.node_map()[ids@[k]].data.rank == ranks@[k]);
        }
        let z = choose|v: int| 0 <= v < n && #[trigger] ranks@[v] == 0;
        assert(graph.node_map()[ids@[z]].data.rank == ranks@[z]);
        assert(before.nodes.contains_key(ids@[z]));
        assert(after.nodes.dom().contains(ids@[z]));
        assert(after.nodes.contains_key(ids@[z]));
        lemma_same_rank_edges(before, after, ids@, list@);
        assert(ranks_of(after, ids@) =~= ranks@) by {
            assert forall|k: int| 0 <= k < n implies after.nodes[ids@[k]].data.rank == ranks@[k] by {
                assert(graph.node_map()[ids@[k]].data.rank == ranks@[k]);
            }
        }
        assert(lists_nodes(after, ids@)) by {
            assert forall|v: usize| #[trigger] ids@.contains(v) <==> after.nodes.contains_key(v) by {
                assert(before.nodes.dom().contains(v) <==> after.nodes.dom().contains(v));
            }
        }
        assert(lists_edges(after, list@));
        assert(has_simplex_ranks(after, ids@, list@));
    }
}

proof fn lemma_same_rank_edges(before: LayoutState, after: LayoutState, ids: Seq<usize>, list: Seq<usize>)
    requires
        before.edges == after.edges,
    ensures
        rank_edges(before, ids, list) == rank_edges(after, ids, list),
    decreases list.len(),
{
    if list.len() > 0 {
        lemma_same_rank_edges(before, after, ids, list.drop_last());
    }
}

/// The rank edges of a sound, acyclic graph that hangs together can be ranked.
#[verifier::rlimit(40)]
proof fn lemma_rank_edges_ok(
    state: LayoutState,
    graph: &LayoutGraph,
    ids: Seq<usize>,
    list: Seq<usize>,
    from: Seq<usize>,
    edges: Seq<RankEdge>,
)
    requires
        graph.wf(),
        state == state_of(graph),
        state.is_sound(),
        is_acyclic(state.edges),
        hangs_together(state) || forall|e: usize| !#[trigger] state.edges.contains_key(e),
        has_small_numbers(state),
        ids == graph.spec_nodes(),
        list == graph.spec_edges(),
        builds_rank_edges(state, ids, list, from, edges),
        ids.len() >= 1,
    ensures
        is_rankable(ids.len() as int, edges),
        has_no_cycle(ids.len() as int, edges),
        edges.len() == 0 || is_connected(ids.len() as int, edges),
        ids.len() * edges.len() + 128 <= usize::MAX,
        ids.no_duplicates(),
        forall|k: int| 0 <= k < ids.len() ==> state.nodes.contains_key(#[trigger] ids[k]),
{
    graph.lemma_members();
    let n = ids.len() as int;
    assert forall|k: int| 0 <= k < ids.len() implies state.nodes.contains_key(#[trigger] ids[k]) by {
        assert(graph.spec_nodes().contains(ids[k]));
    }
    assert forall|i: int| 0 <= i < from.len() implies state.edges.contains_key(#[trigger] from[i]) by {
        assert(edges[i].tail < n);
    }
    let places = Seq::new(ids.len(), |i: int| ids[i] as int);
    crate::counting::lemma_distinct_in_range(places, 0, state.next_node as int);
    let numbers = Seq::new(list.len(), |i: int| list[i] as int);
    assert forall|i: int| 0 <= i < numbers.len() implies 0 <= #[trigger] numbers[i] < state.next_edge by {
        assert(graph.spec_edges().contains(list[i]));
    }
    crate::counting::lemma_distinct_in_range(numbers, 0, state.next_edge as int);
    lemma_longest(edges);
    lemma_longest_is_some(edges);
    let far = longest(edges);
    assert(n * far <= 0x0800_0000_0000_0000) by {
        if far != 0 {
            let i = choose|i: int| 0 <= i < edges.len() && (#[trigger] edges[i]).minlen == far;
            assert(state.edges.contains_key(from[i]));
            assert(state.edges[from[i]].data.minlen == far);
            assert(n * far <= state.next_node * far) by (nonlinear_arith)
                requires
                    n <= state.next_node,
                    far >= 0,
            ;
        } else {
            assert(n * far == 0) by (nonlinear_arith)
                requires
                    far == 0,
            ;
        }
    }
    if edges.len() > 0 {
        let most = 0x7fff_ffff_ffff_ffffint / (state.next_edge as int);
        assert(state.edges.contains_key(from[0]));
        assert(state.next_edge > 0);
        assert forall|i: int| 0 <= i < edges.len() implies 0 <= (#[trigger] edges[i]).weight <= most by {
            assert(state.edges.contains_key(from[i]));
            let w = edges[i].weight as int;
            let data = state.edges[from[i]].data;
            assert(state.next_edge * w <= 0x7fff_ffff_ffff_ffff) by {
                if data.weight > 1 {
                    assert(w == data.weight);
                } else {
                    assert(w == 1);
                    assert(state.next_edge * w == state.next_edge) by (nonlinear_arith)
                        requires
                            w == 1,
                    ;
                }
            }
            assert(w <= most) by (nonlinear_arith)
                requires
                    state.next_edge * w <= 0x7fff_ffff_ffff_ffff,
                    state.next_edge > 0,
                    most == 0x7fff_ffff_ffff_ffffint / (state.next_edge as int),
            ;
        }
        lemma_total_weight(edges, most);
        assert(edges.len() * most <= 0x7fff_ffff_ffff_ffff) by (nonlinear_arith)
            requires
                edges.len() <= state.next_edge,
                state.next_edge > 0,
                most == 0x7fff_ffff_ffff_ffffint / (state.next_edge as int),
        ;
    }
    assert(ids.len() * edges.len() <= state.next_node * state.next_edge) by (nonlinear_arith)
        requires
            ids.len() <= state.next_node,
            edges.len() <= state.next_edge,
    ;
    assert forall|i: int|
        #![trigger edges[i]]
        0 <= i < edges.len() implies edges[i].tail < n && edges[i].head < n && edges[i].tail
        != edges[i].head && edges[i].minlen >= 0 && edges[i].weight >= 0 by {}
    let number = choose|number: Map<usize, int>| #[trigger] numbers_forward(state.edges, number);
    let dense = Seq::new(ids.len(), |i: int| number[ids[i]]);
    assert(leads_forward(edges, dense)) by {
        assert forall|i: int|
            #![trigger edges[i]]
            0 <= i < edges.len() implies dense[edges[i].tail as int] < dense[edges[i].head as int] by {
            assert(state.edges.contains_key(from[i]));
        }
    }
    if edges.len() > 0 {
        assert(state.edges.contains_key(from[0]));
        assert(hangs_together(state));
        assert forall|v: int| 0 <= v < n implies #[trigger] reaches(links(edges, all_edges()), 0, v) by {
            assert(reaches(neighbours_of(state.edges), ids[0], ids[v]));
            let p = choose|p: Seq<usize>| walk_between(neighbours_of(state.edges), p, ids[0], ids[v]);
            lemma_dense_walk(state, graph, ids, list, from, edges, p, p.len() - 1, v);
        }
    }
}

proof fn lemma_dense_walk(
    state: LayoutState,
    graph: &LayoutGraph,
    ids: Seq<usize>,
    list: Seq<usize>,
    from: Seq<usize>,
    edges: Seq<RankEdge>,
    p: Seq<usize>,
    i: int,
    v: int,
)
    requires
        graph.wf(),
        state == state_of(graph),
        state.is_sound(),
        ids == graph.spec_nodes(),
        list == graph.spec_edges(),
        builds_rank_edges(state, ids, list, from, edges),
        is_walk(neighbours_of(state.edges), p),
        0 < ids.len(),
        p[0] == ids[0],
        0 <= i < p.len(),
        0 <= v < ids.len(),
        p[i] == ids[v],
    ensures
        reaches(links(edges, all_edges()), 0, v),
    decreases i,
{
    let e = links(edges, all_edges());
    graph.lemma_members();
    if i == 0 {
        lemma_trivial_walk(e, 0);
        assert(v == 0);
    } else {
        assert(step_at(neighbours_of(state.edges), p, i - 1));
        let (a, b) = (p[i - 1], p[i]);
        let id = choose|id: usize| #[trigger]
            state.edges.contains_key(id) && ((state.edges[id].from == a && state.edges[id].to == b)
                || (state.edges[id].from == b && state.edges[id].to == a));
        assert(state.nodes.contains_key(state.edges[id].from));
        assert(state.nodes.contains_key(state.edges[id].to));
        assert(ids.contains(a));
        let u = ids.index_of(a);
        lemma_dense_walk(state, graph, ids, list, from, edges, p, i - 1, u);
        if a != b {
            assert(list.contains(id));
            let k = list.index_of(id);
            assert(from.contains(list[k]));
            let j = from.index_of(id);
            assert(edges[j].tail < ids.len());
            assert(joins(edges[j], u, v));
            assert(all_edges()(j));
            assert(e(u, v));
            let q = choose|q: Seq<int>| walk_between(e, q, 0, u);
            lemma_extend(e, q, 0, u, v);
        } else {
            assert(u == v);
        }
    }
}

} // verus!
