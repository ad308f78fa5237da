//! What the network simplex does step by step, and why its result is cheapest.
use crate::graph::walk::{lemma_trivial_walk, reaches, step_at, walk_between};
use crate::triskel::rank::{
    crosses, crosses_back, cut_weight, head_side, is_feasible, is_longest_path, is_normalized,
    is_rankable, is_shifted, is_tight_tree, joins, lemma_side_closed, links, members, members_but,
    moved, other_end, spec_slack, tight_edges, RankEdge,
};
use vstd::prelude::*;

verus! {

// Trees.

/// No edge of the tree but `te` crosses the border of `side`, and `te` crosses it inward.
pub open spec fn parts_at(edges: Seq<RankEdge>, tree: Set<usize>, te: usize, side: Set<usize>) -> bool {
    &&& side.contains(edges[te as int].head)
    &&& !side.contains(edges[te as int].tail)
    &&& forall|i: usize| #[trigger]
        tree.contains(i) && i != te ==> side.contains(edges[i as int].tail) == side.contains(
            edges[i as int].head,
        )
}

/// Without any one of its edges the tree falls apart.
pub open spec fn is_tree(edges: Seq<RankEdge>, tree: Set<usize>) -> bool {
    forall|te: usize| #[trigger]
        tree.contains(te) ==> exists|side: Set<usize>| parts_at(edges, tree, te, side)
}

/// An edge to a new node makes a tree larger.
pub proof fn lemma_tree_grows(
    edges: Seq<RankEdge>,
    tree: Set<usize>,
    seen: Set<usize>,
    i: usize,
    v: usize,
    other: usize,
)
    requires
        is_tree(edges, tree),
        forall|k: usize| #[trigger]
            tree.contains(k) ==> seen.contains(edges[k as int].tail) && seen.contains(
                edges[k as int].head,
            ),
        seen.contains(v),
        !seen.contains(other),
        joins(edges[i as int], v as int, other as int),
    ensures
        is_tree(edges, tree.insert(i)),
{
    let next = tree.insert(i);
    assert forall|te: usize| #[trigger] next.contains(te) implies exists|side: Set<usize>|
        parts_at(edges, next, te, side) by {
        if te == i {
            let side = Set::new(|x: usize| (x == other) == (edges[i as int].head == other));
            assert forall|k: usize| #[trigger] next.contains(k) && k != te implies side.contains(
                edges[k as int].tail,
            ) == side.contains(edges[k as int].head) by {
                assert(tree.contains(k));
            }
            assert(parts_at(edges, next, te, side));
        } else {
            assert(tree.contains(te));
            let old_side = choose|side: Set<usize>| parts_at(edges, tree, te, side);
            let side = if old_side.contains(v) {
                old_side.insert(other)
            } else {
                old_side.remove(other)
            };
            assert forall|k: usize| #[trigger] next.contains(k) && k != te implies side.contains(
                edges[k as int].tail,
            ) == side.contains(edges[k as int].head) by {
                if k != i {
                    assert(tree.contains(k));
                }
            }
            assert(parts_at(edges, next, te, side));
        }
    }
}

/// The tail of a tree edge is not on its head's side.
pub proof fn lemma_tail_apart(n: int, edges: Seq<RankEdge>, tree: Set<usize>, te: usize)
    requires
        is_tree(edges, tree),
        tree.contains(te),
        te < edges.len(),
        forall|i: usize| #[trigger] tree.contains(i) ==> i < edges.len(),
        is_rankable(n, edges),
    ensures
        !head_side(n, edges, tree, te as int).contains(edges[te as int].tail),
{
    let side = choose|side: Set<usize>| parts_at(edges, tree, te, side);
    let e = links(edges, members_but(tree, te as int));
    if head_side(n, edges, tree, te as int).contains(edges[te as int].tail) {
        let (head, tail) = (edges[te as int].head as int, edges[te as int].tail as int);
        let p = choose|p: Seq<int>| walk_between(e, p, head, tail);
        lemma_walk_on_side(edges, tree, te, side, p, p.len() - 1);
    }
}

proof fn lemma_walk_on_side(
    edges: Seq<RankEdge>,
    tree: Set<usize>,
    te: usize,
    side: Set<usize>,
    p: Seq<int>,
    i: int,
)
    requires
        parts_at(edges, tree, te, side),
        walk_between(
            links(edges, members_but(tree, te as int)),
            p,
            edges[te as int].head as int,
            p.last(),
        ),
        0 <= i < p.len(),
    ensures
        0 <= p[i] <= usize::MAX,
        side.contains(p[i] as usize),
    decreases i,
{
    if i > 0 {
        lemma_walk_on_side(edges, tree, te, side, p, i - 1);
        let on = members_but(tree, te as int);
        assert(step_at(links(edges, on), p, i - 1));
        let j = choose|j: int| 0 <= j < edges.len() && on(j) && #[trigger] joins(edges[j], p[i - 1], p[i]);
        assert(tree.contains(j as usize));
    }
}

/// An edge that crosses the cut of another takes its place in a tree.
pub proof fn lemma_tree_exchange(
    n: int,
    edges: Seq<RankEdge>,
    tree: Set<usize>,
    leave: usize,
    enter: usize,
)
    requires
        is_rankable(n, edges),
        n <= usize::MAX + 1,
        is_tree(edges, tree),
        forall|i: usize| #[trigger] tree.contains(i) ==> i < edges.len(),
        tree.contains(leave),
        enter < edges.len(),
        !tree.contains(enter),
        head_side(n, edges, tree, leave as int).contains(edges[enter as int].tail),
        !head_side(n, edges, tree, leave as int).contains(edges[enter as int].head),
    ensures
        is_tree(edges, tree.remove(leave).insert(enter)),
{
    let next = tree.remove(leave).insert(enter);
    let cut = head_side(n, edges, tree, leave as int);
    assert forall|te: usize| #[trigger] next.contains(te) implies exists|side: Set<usize>|
        parts_at(edges, next, te, side) by {
        if te == enter {
            let side = Set::new(|x: usize| !cut.contains(x));
            assert forall|k: usize| #[trigger] next.contains(k) && k != te implies side.contains(
                edges[k as int].tail,
            ) == side.contains(edges[k as int].head) by {
                lemma_side_closed(n, edges, tree, leave as int, k);
            }
            assert(parts_at(edges, next, te, side));
        } else {
            assert(tree.contains(te));
            let old_side = choose|side: Set<usize>| parts_at(edges, tree, te, side);
            let (a, b) = (edges[enter as int].tail, edges[enter as int].head);
            lemma_side_closed(n, edges, tree, leave as int, te);
            if old_side.contains(a) == old_side.contains(b) {
                assert forall|k: usize| #[trigger] next.contains(k) && k != te implies old_side.contains(
                    edges[k as int].tail,
                ) == old_side.contains(edges[k as int].head) by {
                    if k != enter {
                        assert(tree.contains(k));
                    }
                }
                assert(parts_at(edges, next, te, old_side));
            } else {
                let turned = cut.contains(edges[te as int].head);
                let side = Set::new(
                    |x: usize| (old_side.contains(x) != cut.contains(x)) != turned,
                );
                assert forall|k: usize| #[trigger] next.contains(k) && k != te implies side.contains(
                    edges[k as int].tail,
                ) == side.contains(edges[k as int].head) by {
                    if k != enter {
                        assert(tree.contains(k));
                        lemma_side_closed(n, edges, tree, leave as int, k);
                    }
                }
                assert(parts_at(edges, next, te, side));
            }
        }
    }
}

// Search for a tree.

/// The edges at `v` among the first `k`, ascending.
pub open spec fn edges_at(edges: Seq<RankEdge>, v: usize, k: nat) -> Seq<usize>
    decreases k,
{
    if k == 0 {
        Seq::empty()
    } else {
        let rest = edges_at(edges, v, (k - 1) as nat);
        if edges[k - 1].tail == v || edges[k - 1].head == v {
            rest.push((k - 1) as usize)
        } else {
            rest
        }
    }
}

/// Where a depth-first search stands: the nodes it has seen, the edges over which it saw
/// them, and the nodes from which it has still to look on, the next one last.
pub struct Flooding {
    pub seen: Set<usize>,
    pub used: Set<usize>,
    pub stack: Seq<usize>,
}

/// The search after looking from `v` over the edges of `list` that `on` admits.
pub open spec fn spread(
    edges: Seq<RankEdge>,
    on: spec_fn(int) -> bool,
    v: usize,
    list: Seq<usize>,
    state: Flooding,
) -> Flooding
    decreases list.len(),
{
    if list.len() == 0 {
        state
    } else {
        let before = spread(edges, on, v, list.drop_last(), state);
        let i = list.last();
        let other = other_end(edges[i as int], v);
        if on(i as int) && !before.seen.contains(other) {
            Flooding {
                seen: before.seen.insert(other),
                used: before.used.insert(i),
                stack: before.stack.push(other),
            }
        } else {
            before
        }
    }
}

pub open spec fn floods_at(
    edges: Seq<RankEdge>,
    on: spec_fn(int) -> bool,
    states: Seq<Flooding>,
    k: int,
) -> bool {
    let v = states[k].stack.last();
    &&& states[k].stack.len() > 0
    &&& states[k + 1] == spread(
        edges,
        on,
        v,
        edges_at(edges, v, edges.len()),
        Flooding { stack: states[k].stack.drop_last(), ..states[k] },
    )
}

/// A depth-first search from `start` over the edges that `on` admits.
pub open spec fn is_flood(
    edges: Seq<RankEdge>,
    on: spec_fn(int) -> bool,
    start: usize,
    states: Seq<Flooding>,
) -> bool {
    &&& states.len() > 0
    &&& states[0] == (Flooding {
        seen: Set::empty().insert(start),
        used: Set::empty(),
        stack: seq![start],
    })
    &&& forall|k: int| 0 <= k < states.len() - 1 ==> #[trigger] floods_at(edges, on, states, k)
}

/// One more step of a search.
pub proof fn lemma_next_flood(
    edges: Seq<RankEdge>,
    on: spec_fn(int) -> bool,
    start: usize,
    states: Seq<Flooding>,
    next: Flooding,
)
    requires
        is_flood(edges, on, start, states),
        states.last().stack.len() > 0,
        ({
            let v = states.last().stack.last();
            next == spread(
                edges,
                on,
                v,
                edges_at(edges, v, edges.len()),
                Flooding { stack: states.last().stack.drop_last(), ..states.last() },
            )
        }),
    ensures
        is_flood(edges, on, start, states.push(next)),
{
    let more = states.push(next);
    assert forall|k: int| 0 <= k < more.len() - 1 implies #[trigger] floods_at(edges, on, more, k) by {
        if k < states.len() - 1 {
            assert(floods_at(edges, on, states, k));
        }
    }
}

proof fn lemma_same_spread(
    edges: Seq<RankEdge>,
    on: spec_fn(int) -> bool,
    other: spec_fn(int) -> bool,
    v: usize,
    k: nat,
    state: Flooding,
)
    requires
        k <= edges.len() <= usize::MAX,
        forall|i: int| 0 <= i < edges.len() ==> #[trigger] on(i) == other(i),
    ensures
        spread(edges, on, v, edges_at(edges, v, k), state) == spread(
            edges,
            other,
            v,
            edges_at(edges, v, k),
            state,
        ),
    decreases k,
{
    if k > 0 {
        lemma_same_spread(edges, on, other, v, (k - 1) as nat, state);
        let rest = edges_at(edges, v, (k - 1) as nat);
        let list = edges_at(edges, v, k);
        if list != rest {
            assert(list.drop_last() =~= rest);
            assert(on(k - 1) == other(k - 1));
        }
    }
}

/// A search depends on what is admitted of the edges alone.
pub proof fn lemma_same_flood(
    edges: Seq<RankEdge>,
    on: spec_fn(int) -> bool,
    other: spec_fn(int) -> bool,
    start: usize,
    states: Seq<Flooding>,
)
    requires
        edges.len() <= usize::MAX,
        is_flood(edges, on, start, states),
        forall|i: int| 0 <= i < edges.len() ==> #[trigger] on(i) == other(i),
    ensures
        is_flood(edges, other, start, states),
{
    assert forall|k: int| 0 <= k < states.len() - 1 implies #[trigger] floods_at(
        edges,
        other,
        states,
        k,
    ) by {
        assert(floods_at(edges, on, states, k));
        let v = states[k].stack.last();
        lemma_same_spread(
            edges,
            on,
            other,
            v,
            edges.len(),
            Flooding { stack: states[k].stack.drop_last(), ..states[k] },
        );
    }
}

// Costs.

/// The total cost of a ranking over the first `k` edges: weight times slack.
pub open spec fn cost(edges: Seq<RankEdge>, rank: Seq<i64>, k: nat) -> int
    decreases k,
{
    if k == 0 {
        0
    } else {
        cost(edges, rank, (k - 1) as nat) + edges[k - 1].weight * spec_slack(edges[k - 1], rank)
    }
}

/// No feasible ranking of `n` nodes has a lower total cost.
pub open spec fn is_cheapest(n: int, edges: Seq<RankEdge>, rank: Seq<i64>) -> bool {
    forall|other: Seq<i64>|
        other.len() == n && #[trigger] is_feasible(edges, other) ==> cost(edges, rank, edges.len())
            <= cost(edges, other, edges.len())
}

/// No cut of a tree edge has a negative value.
pub open spec fn is_settled(n: int, edges: Seq<RankEdge>, tree: Set<usize>) -> bool {
    forall|te: usize| #[trigger]
        tree.contains(te) ==> cut_weight(edges, head_side(n, edges, tree, te as int), edges.len())
            >= 0
}

/// A tree of edges without slack that reaches every node.
pub open spec fn is_spanning(n: int, edges: Seq<RankEdge>, rank: Seq<i64>, tree: Set<usize>) -> bool {
    is_tight_tree(n, edges, rank, tree) && is_tree(edges, tree)
}

/// How much longer an edge is under `other` than under `rank`.
spec fn stretch(edge: RankEdge, rank: Seq<i64>, other: Seq<i64>) -> int {
    spec_slack(edge, other) - spec_slack(edge, rank)
}

/// What the first `m` edges, as far as they are in the tree, contribute to the move of a
/// node: those on whose head's side it lies.
spec fn move_of(
    n: int,
    edges: Seq<RankEdge>,
    rank: Seq<i64>,
    other: Seq<i64>,
    tree: Set<usize>,
    v: usize,
    m: nat,
) -> int
    decreases m,
{
    if m == 0 {
        0
    } else {
        move_of(n, edges, rank, other, tree, v, (m - 1) as nat) + if tree.contains(
            (m - 1) as usize,
        ) && head_side(n, edges, tree, m - 1).contains(v) {
            stretch(edges[m - 1], rank, other)
        } else {
            0
        }
    }
}

/// Along a tree edge the contributions differ by that of the edge itself.
proof fn lemma_move_along(
    n: int,
    edges: Seq<RankEdge>,
    rank: Seq<i64>,
    other: Seq<i64>,
    tree: Set<usize>,
    j: usize,
    m: nat,
)
    requires
        is_rankable(n, edges),
        n <= usize::MAX + 1,
        is_spanning(n, edges, rank, tree),
        tree.contains(j),
        m <= edges.len() <= usize::MAX,
    ensures
        move_of(n, edges, rank, other, tree, edges[j as int].head, m) - move_of(
            n,
            edges,
            rank,
            other,
            tree,
            edges[j as int].tail,
            m,
        ) == if j < m {
            stretch(edges[j as int], rank, other)
        } else {
            0
        },
    decreases m,
{
    if m > 0 {
        lemma_move_along(n, edges, rank, other, tree, j, (m - 1) as nat);
        let te = (m - 1) as usize;
        assert(j < edges.len());
        if tree.contains(te) {
            if te == j {
                lemma_tail_apart(n, edges, tree, te);
                let e = links(edges, members_but(tree, te as int));
                assert(edges[te as int].head < n);
                lemma_trivial_walk(e, edges[te as int].head as int);
                assert(head_side(n, edges, tree, te as int).contains(edges[te as int].head));
            } else {
                lemma_side_closed(n, edges, tree, te as int, j);
            }
        }
    }
}

/// All contributions together are the move of a node, up to the same amount for all.
proof fn lemma_moves(
    n: int,
    edges: Seq<RankEdge>,
    rank: Seq<i64>,
    other: Seq<i64>,
    tree: Set<usize>,
    p: Seq<int>,
    i: int,
)
    requires
        is_rankable(n, edges),
        1 <= n <= usize::MAX + 1,
        rank.len() == n,
        other.len() == n,
        edges.len() <= usize::MAX,
        is_spanning(n, edges, rank, tree),
        walk_between(links(edges, members(tree)), p, 0, p.last()),
        0 <= i < p.len(),
    ensures
        0 <= p[i] < n,
        move_of(n, edges, rank, other, tree, p[i] as usize, edges.len()) - (other[p[i]] - rank[p[i]])
            == move_of(n, edges, rank, other, tree, 0, edges.len()) - (other[0] - rank[0]),
    decreases i,
{
    if i > 0 {
        lemma_moves(n, edges, rank, other, tree, p, i - 1);
        assert(step_at(links(edges, members(tree)), p, i - 1));
        let j = choose|j: int|
            0 <= j < edges.len() && members(tree)(j) && #[trigger] joins(edges[j], p[i - 1], p[i]);
        assert(tree.contains(j as usize));
        assert(edges[j].tail < n && edges[j].head < n);
        lemma_move_along(n, edges, rank, other, tree, j as usize, edges.len());
    }
}

/// The stretches of the first `k` edges, weighted, where each edge is stretched by the
/// contributions of the first `m` edges.
spec fn weighted(
    n: int,
    edges: Seq<RankEdge>,
    rank: Seq<i64>,
    other: Seq<i64>,
    tree: Set<usize>,
    m: nat,
    k: nat,
) -> int
    decreases k,
{
    if k == 0 {
        0
    } else {
        let e = edges[k - 1];
        weighted(n, edges, rank, other, tree, m, (k - 1) as nat) + e.weight * (move_of(
            n,
            edges,
            rank,
            other,
            tree,
            e.head,
            m,
        ) - move_of(n, edges, rank, other, tree, e.tail, m))
    }
}

/// Adding a contribution adds its cut value times its stretch.
proof fn lemma_weighted_step(
    n: int,
    edges: Seq<RankEdge>,
    rank: Seq<i64>,
    other: Seq<i64>,
    tree: Set<usize>,
    m: nat,
    k: nat,
)
    requires
        0 < m <= edges.len(),
        k <= edges.len(),
    ensures
        weighted(n, edges, rank, other, tree, m, k) == weighted(
            n,
            edges,
            rank,
            other,
            tree,
            (m - 1) as nat,
            k,
        ) + if tree.contains((m - 1) as usize) {
            cut_weight(edges, head_side(n, edges, tree, m - 1), k) * stretch(
                edges[m - 1],
                rank,
                other,
            )
        } else {
            0
        },
    decreases k,
{
    let side = head_side(n, edges, tree, m - 1);
    let s = stretch(edges[m - 1], rank, other);
    if k == 0 {
        assert(0 * s == 0) by (nonlinear_arith);
    } else {
        lemma_weighted_step(n, edges, rank, other, tree, m, (k - 1) as nat);
        let e = edges[k - 1];
        let w = e.weight as int;
        let before = move_of(n, edges, rank, other, tree, e.head, (m - 1) as nat) - move_of(
            n,
            edges,
            rank,
            other,
            tree,
            e.tail,
            (m - 1) as nat,
        );
        let after = move_of(n, edges, rank, other, tree, e.head, m) - move_of(
            n,
            edges,
            rank,
            other,
            tree,
            e.tail,
            m,
        );
        if tree.contains((m - 1) as usize) {
            let c = cut_weight(edges, side, (k - 1) as nat);
            let sign: int = if side.contains(e.tail) == side.contains(e.head) {
                0
            } else if side.contains(e.head) {
                1
            } else {
                -1
            };
            assert(after == before + sign * s) by {
                assert(sign == 0 ==> sign * s == 0) by (nonlinear_arith);
                assert(sign == 1 ==> sign * s == s) by (nonlinear_arith);
                assert(sign == -1 ==> sign * s == -s) by (nonlinear_arith);
            }
            assert(cut_weight(edges, side, k) == c + sign * w) by {
                assert(sign == 0 ==> sign * w == 0) by (nonlinear_arith);
                assert(sign == 1 ==> sign * w == w) by (nonlinear_arith);
                assert(sign == -1 ==> sign * w == -w) by (nonlinear_arith);
            }
            assert(w * (before + sign * s) == w * before + (sign * w) * s) by (nonlinear_arith);
            assert((c + sign * w) * s == c * s + (sign * w) * s) by (nonlinear_arith);
        }
    }
}

/// Where no cut value is negative, what the contributions cost is not negative.
proof fn lemma_weighted_sign(
    n: int,
    edges: Seq<RankEdge>,
    rank: Seq<i64>,
    other: Seq<i64>,
    tree: Set<usize>,
    m: nat,
)
    requires
        m <= edges.len() <= usize::MAX,
        is_settled(n, edges, tree),
        is_tight_tree(n, edges, rank, tree),
        is_feasible(edges, other),
    ensures
        weighted(n, edges, rank, other, tree, m, edges.len()) >= 0,
    decreases m,
{
    if m == 0 {
        lemma_weighted_zero(n, edges, rank, other, tree, edges.len());
    } else {
        lemma_weighted_sign(n, edges, rank, other, tree, (m - 1) as nat);
        lemma_weighted_step(n, edges, rank, other, tree, m, edges.len());
        let te = (m - 1) as usize;
        if tree.contains(te) {
            let c = cut_weight(edges, head_side(n, edges, tree, te as int), edges.len());
            let s = stretch(edges[te as int], rank, other);
            assert(spec_slack(edges[te as int], rank) == 0);
            assert(spec_slack(edges[te as int], other) >= 0);
            assert(c * s >= 0) by (nonlinear_arith)
                requires
                    c >= 0,
                    s >= 0,
            ;
        }
    }
}

proof fn lemma_weighted_zero(
    n: int,
    edges: Seq<RankEdge>,
    rank: Seq<i64>,
    other: Seq<i64>,
    tree: Set<usize>,
    k: nat,
)
    ensures
        weighted(n, edges, rank, other, tree, 0, k) == 0,
    decreases k,
{
    if k > 0 {
        lemma_weighted_zero(n, edges, rank, other, tree, (k - 1) as nat);
        let w = edges[k - 1].weight as int;
        assert(w * 0 == 0) by (nonlinear_arith);
    }
}

/// The contributions make up the difference of the costs.
proof fn lemma_cost_difference(
    n: int,
    edges: Seq<RankEdge>,
    rank: Seq<i64>,
    other: Seq<i64>,
    tree: Set<usize>,
    k: nat,
)
    requires
        is_rankable(n, edges),
        1 <= n <= usize::MAX + 1,
        rank.len() == n,
        other.len() == n,
        k <= edges.len() <= usize::MAX,
        is_spanning(n, edges, rank, tree),
    ensures
        cost(edges, other, k) - cost(edges, rank, k) == weighted(
            n,
            edges,
            rank,
            other,
            tree,
            edges.len(),
            k,
        ),
    decreases k,
{
    if k > 0 {
        lemma_cost_difference(n, edges, rank, other, tree, (k - 1) as nat);
        let e = edges[k - 1];
        assert(e.tail < n && e.head < n);
        let all = links(edges, members(tree));
        assert(reaches(all, 0, e.tail as int));
        assert(reaches(all, 0, e.head as int));
        let p = choose|p: Seq<int>| walk_between(all, p, 0, e.tail as int);
        let q = choose|q: Seq<int>| walk_between(all, q, 0, e.head as int);
        lemma_moves(n, edges, rank, other, tree, p, p.len() - 1);
        lemma_moves(n, edges, rank, other, tree, q, q.len() - 1);
        let (w, x, y) = (e.weight as int, spec_slack(e, other), spec_slack(e, rank));
        assert(w * x - w * y == w * (x - y)) by (nonlinear_arith);
    }
}

/// A ranking with a spanning tree of tight edges is cheapest where no cut of a tree edge
/// has a negative value.
pub proof fn law_settled_ranking_is_cheapest(
    n: int,
    edges: Seq<RankEdge>,
    rank: Seq<i64>,
    tree: Set<usize>,
)
    requires
        is_rankable(n, edges),
        1 <= n <= usize::MAX,
        edges.len() <= usize::MAX,
        rank.len() == n,
        is_spanning(n, edges, rank, tree),
        is_settled(n, edges, tree),
    ensures
        is_cheapest(n, edges, rank),
{
    assert forall|other: Seq<i64>|
        other.len() == n && #[trigger] is_feasible(edges, other) implies cost(
        edges,
        rank,
        edges.len(),
    ) <= cost(edges, other, edges.len()) by {
        lemma_cost_difference(n, edges, rank, other, tree, edges.len());
        lemma_weighted_sign(n, edges, rank, other, tree, edges.len());
    }
}

// The run.

/// Of the edges that `on` admits, the first of those with the least slack.
pub open spec fn is_tightest(
    edges: Seq<RankEdge>,
    rank: Seq<i64>,
    on: spec_fn(int) -> bool,
    i: int,
) -> bool {
    &&& 0 <= i < edges.len() && on(i)
    &&& forall|k: int|
        0 <= k < edges.len() && #[trigger] on(k) ==> spec_slack(edges[i], rank) < spec_slack(
            edges[k],
            rank,
        ) || (spec_slack(edges[i], rank) == spec_slack(edges[k], rank) && i <= k)
}

/// The nodes that hang together with node 0 by edges without slack.
pub open spec fn tight_part(n: int, edges: Seq<RankEdge>, rank: Seq<i64>) -> Set<usize> {
    Set::new(
        |v: usize| v < n && reaches(links(edges, tight_edges(edges, rank)), 0, v as int),
    )
}

/// The edges over the border of a set.
pub open spec fn border(edges: Seq<RankEdge>, part: Set<usize>) -> spec_fn(int) -> bool {
    |k: int| crosses(edges[k], part)
}

/// The ranks with the nodes of `part` moved by `delta`.
pub open spec fn part_moved(rank: Seq<i64>, part: Set<usize>, delta: int) -> Seq<i64> {
    Seq::new(
        rank.len(),
        |v: int| if part.contains(v as usize) { (rank[v] + delta) as i64 } else { rank[v] },
    )
}

/// The part that hangs together with node 0 moves until edge `i`, the tightest over its
/// border, has no slack.
pub open spec fn closes_in(
    n: int,
    edges: Seq<RankEdge>,
    rank: Seq<i64>,
    i: int,
    next: Seq<i64>,
) -> bool {
    let part = tight_part(n, edges, rank);
    &&& is_tightest(edges, rank, border(edges, part), i)
    &&& next == part_moved(
        rank,
        part,
        if part.contains(edges[i].head) {
            -spec_slack(edges[i], rank)
        } else {
            spec_slack(edges[i], rank)
        },
    )
}

pub open spec fn is_shift(n: int, edges: Seq<RankEdge>, rank: Seq<i64>, next: Seq<i64>) -> bool {
    exists|i: int| #[trigger] closes_in(n, edges, rank, i, next)
}

pub open spec fn shifts_at(n: int, edges: Seq<RankEdge>, shifts: Seq<Seq<i64>>, i: int) -> bool {
    is_shift(n, edges, shifts[i], shifts[i + 1])
}

/// Shifts from the longest-path ranking until all nodes hang together.
pub open spec fn is_shifting(n: int, edges: Seq<RankEdge>, shifts: Seq<Seq<i64>>) -> bool {
    &&& shifts.len() > 0
    &&& is_longest_path(n, edges, shifts[0])
    &&& forall|i: int| 0 <= i < shifts.len() - 1 ==> #[trigger] shifts_at(n, edges, shifts, i)
}

/// One more shift.
pub proof fn lemma_next_shift(n: int, edges: Seq<RankEdge>, shifts: Seq<Seq<i64>>, next: Seq<i64>)
    requires
        is_shifting(n, edges, shifts),
        is_shift(n, edges, shifts.last(), next),
    ensures
        is_shifting(n, edges, shifts.push(next)),
{
    let more = shifts.push(next);
    assert forall|i: int| 0 <= i < more.len() - 1 implies #[trigger] shifts_at(n, edges, more, i) by {
        if i < shifts.len() - 1 {
            assert(shifts_at(n, edges, shifts, i));
        }
    }
}

/// A spanning tree with the ranks that leave its edges no slack.
pub struct Basis {
    pub tree: Set<usize>,
    pub rank: Seq<i64>,
}

/// The first tree edge whose cut has a negative value.
pub open spec fn is_leaving(n: int, edges: Seq<RankEdge>, tree: Set<usize>, leave: usize) -> bool {
    &&& tree.contains(leave)
    &&& cut_weight(edges, head_side(n, edges, tree, leave as int), edges.len()) < 0
    &&& forall|te: usize| #[trigger]
        tree.contains(te) && te < leave ==> cut_weight(
            edges,
            head_side(n, edges, tree, te as int),
            edges.len(),
        ) >= 0
}

/// The edges outside the tree that cross a cut from the head's side to the tail's side.
pub open spec fn backward(edges: Seq<RankEdge>, tree: Set<usize>, side: Set<usize>) -> spec_fn(int) -> bool {
    |k: int| crosses_back(edges[k], side) && !tree.contains(k as usize)
}

/// The first tree edge with a negative cut value gives way to the tightest edge that
/// crosses its cut the other way, which loses its slack.
pub open spec fn gives_way(
    n: int,
    edges: Seq<RankEdge>,
    a: Basis,
    leave: usize,
    enter: usize,
    b: Basis,
) -> bool {
    let side = head_side(n, edges, a.tree, leave as int);
    &&& is_leaving(n, edges, a.tree, leave)
    &&& is_tightest(edges, a.rank, backward(edges, a.tree, side), enter as int)
    &&& b.tree == a.tree.remove(leave).insert(enter)
    &&& b.rank == moved(a.rank, side, spec_slack(edges[enter as int], a.rank))
}

pub open spec fn is_exchange(n: int, edges: Seq<RankEdge>, a: Basis, b: Basis) -> bool {
    exists|leave: usize, enter: usize| #[trigger] gives_way(n, edges, a, leave, enter, b)
}

pub open spec fn exchanges_at(n: int, edges: Seq<RankEdge>, run: Seq<Basis>, i: int) -> bool {
    is_exchange(n, edges, run[i], run[i + 1])
}

/// A run of exchanges from one spanning tree to the next.
pub open spec fn is_run(n: int, edges: Seq<RankEdge>, run: Seq<Basis>) -> bool {
    &&& run.len() > 0
    &&& forall|i: int|
        #![trigger run[i]]
        0 <= i < run.len() ==> run[i].rank.len() == n && is_spanning(
            n,
            edges,
            run[i].rank,
            run[i].tree,
        )
    &&& forall|i: int| 0 <= i < run.len() - 1 ==> #[trigger] exchanges_at(n, edges, run, i)
}

/// One more exchange.
pub proof fn lemma_next_exchange(n: int, edges: Seq<RankEdge>, run: Seq<Basis>, next: Basis)
    requires
        is_run(n, edges, run),
        is_exchange(n, edges, run.last(), next),
        next.rank.len() == n,
        is_spanning(n, edges, next.rank, next.tree),
    ensures
        is_run(n, edges, run.push(next)),
{
    let more = run.push(next);
    assert forall|i: int| 0 <= i < more.len() - 1 implies #[trigger] exchanges_at(n, edges, more, i) by {
        if i < run.len() - 1 {
            assert(exchanges_at(n, edges, run, i));
        }
    }
}

/// How many exchanges are made at most.
pub open spec fn most_exchanges(n: int, edges: Seq<RankEdge>) -> int {
    if n * edges.len() > 64 {
        n * edges.len() + 64
    } else {
        128
    }
}

/// All ranks are moved together so that the least is zero.
pub open spec fn is_levelled(before: Seq<i64>, after: Seq<i64>) -> bool {
    is_normalized(after) && exists|shift: int| #[trigger] is_shifted(before, after, shift)
}

/// The weight of the edges into `v` among the first `k`.
pub open spec fn weight_in(edges: Seq<RankEdge>, v: int, k: nat) -> int
    decreases k,
{
    if k == 0 {
        0
    } else {
        weight_in(edges, v, (k - 1) as nat) + if edges[k - 1].head == v {
            edges[k - 1].weight as int
        } else {
            0
        }
    }
}

/// The weight of the edges out of `v` among the first `k`.
pub open spec fn weight_out(edges: Seq<RankEdge>, v: int, k: nat) -> int
    decreases k,
{
    if k == 0 {
        0
    } else {
        weight_out(edges, v, (k - 1) as nat) + if edges[k - 1].tail == v {
            edges[k - 1].weight as int
        } else {
            0
        }
    }
}

/// `lo` is the least rank that the edges into `v` among the first `k` allow it.
pub open spec fn is_earliest(edges: Seq<RankEdge>, rank: Seq<i64>, v: int, k: int, lo: int) -> bool {
    &&& forall|i: int|
        #![trigger edges[i]]
        0 <= i < k && edges[i].head == v ==> rank[edges[i].tail as int] + edges[i].minlen <= lo
    &&& exists|i: int|
        #![trigger edges[i]]
        0 <= i < k && edges[i].head == v && rank[edges[i].tail as int] + edges[i].minlen == lo
}

/// `hi` is the greatest rank that the edges out of `v` among the first `k` allow it.
pub open spec fn is_latest(edges: Seq<RankEdge>, rank: Seq<i64>, v: int, k: int, hi: int) -> bool {
    &&& forall|i: int|
        #![trigger edges[i]]
        0 <= i < k && edges[i].tail == v ==> hi <= rank[edges[i].head as int] - edges[i].minlen
    &&& exists|i: int|
        #![trigger edges[i]]
        0 <= i < k && edges[i].tail == v && rank[edges[i].head as int] - edges[i].minlen == hi
}

/// A node with as much weight in as out, and with edges of both kinds, moves to the middle
/// of the ranks that its edges allow it; any other stays.
pub open spec fn is_centred(edges: Seq<RankEdge>, rank: Seq<i64>, v: int, next: Seq<i64>) -> bool {
    let all = edges.len();
    if weight_in(edges, v, all) == weight_out(edges, v, all) && (exists|lo: int|
        #[trigger] is_earliest(edges, rank, v, all as int, lo)) && (exists|hi: int|
        #[trigger] is_latest(edges, rank, v, all as int, hi)) {
        exists|lo: int, hi: int|
            {
                &&& #[trigger] is_earliest(edges, rank, v, all as int, lo)
                &&& #[trigger] is_latest(edges, rank, v, all as int, hi)
                &&& next == rank.update(v, ((lo + hi) / 2) as i64)
            }
    } else {
        next == rank
    }
}

pub open spec fn centres_at(edges: Seq<RankEdge>, states: Seq<Seq<i64>>, v: int) -> bool {
    is_centred(edges, states[v], v, states[v + 1])
}

/// The nodes are centred one after the other.
pub open spec fn is_balancing(n: int, edges: Seq<RankEdge>, states: Seq<Seq<i64>>) -> bool {
    &&& states.len() == n + 1
    &&& forall|v: int| 0 <= v < n ==> #[trigger] centres_at(edges, states, v)
}

/// A whole run of the network simplex.
pub struct Simplex {
    pub shifts: Seq<Seq<i64>>,
    pub search: Seq<Flooding>,
    pub run: Seq<Basis>,
    pub balancing: Seq<Seq<i64>>,
}

/// The network simplex ranks the nodes: shifts until a tight tree spans them, a search that
/// finds the tree, exchanges until no cut value is negative or the limit is reached, and
/// balancing.
pub open spec fn is_simplex(n: int, edges: Seq<RankEdge>, s: Simplex, rank: Seq<i64>) -> bool {
    &&& is_shifting(n, edges, s.shifts)
    &&& is_run(n, edges, s.run)
    &&& s.run[0].rank == s.shifts.last()
    &&& is_flood(edges, tight_edges(edges, s.shifts.last()), 0, s.search)
    &&& s.search.last().stack.len() == 0
    &&& s.run[0].tree == s.search.last().used
    &&& s.run.len() <= most_exchanges(n, edges) + 1
    &&& s.run.len() == most_exchanges(n, edges) + 1 || is_settled(n, edges, s.run.last().tree)
    &&& is_balancing(n, edges, s.balancing)
    &&& is_levelled(s.run.last().rank, s.balancing[0])
    &&& is_levelled(s.balancing.last(), rank)
}

/// A negative cut is crossed the other way by an edge outside the tree.
pub proof fn lemma_some_backward(n: int, edges: Seq<RankEdge>, tree: Set<usize>, leave: usize)
    requires
        is_rankable(n, edges),
        n <= usize::MAX + 1,
        edges.len() <= usize::MAX,
        is_tree(edges, tree),
        forall|i: usize| #[trigger] tree.contains(i) ==> i < edges.len(),
        tree.contains(leave),
        forall|k: int|
            0 <= k < edges.len() && crosses_back(
                #[trigger] edges[k],
                head_side(n, edges, tree, leave as int),
            ) ==> tree.contains(k as usize),
    ensures
        cut_weight(edges, head_side(n, edges, tree, leave as int), edges.len()) >= 0,
{
    lemma_tail_apart(n, edges, tree, leave);
    let side = head_side(n, edges, tree, leave as int);
    assert forall|k: int| 0 <= k < edges.len() implies !crosses_back(#[trigger] edges[k], side) by {
        if crosses_back(edges[k], side) && k != leave {
            lemma_side_closed(n, edges, tree, leave as int, k as usize);
        }
    }
    lemma_cut_forward(n, edges, side, edges.len());
}

proof fn lemma_cut_forward(n: int, edges: Seq<RankEdge>, side: Set<usize>, k: nat)
    requires
        is_rankable(n, edges),
        k <= edges.len(),
        forall|i: int| 0 <= i < edges.len() ==> !crosses_back(#[trigger] edges[i], side),
    ensures
        cut_weight(edges, side, k) >= 0,
    decreases k,
{
    if k > 0 {
        lemma_cut_forward(n, edges, side, (k - 1) as nat);
        assert(edges[k - 1].weight >= 0);
        assert(!crosses_back(edges[k - 1], side));
    }
}

// What changes no cost.

proof fn lemma_shift_cost(n: int, edges: Seq<RankEdge>, before: Seq<i64>, after: Seq<i64>, shift: int, k: nat)
    requires
        is_rankable(n, edges),
        before.len() == n,
        is_shifted(before, after, shift),
        k <= edges.len(),
    ensures
        cost(edges, after, k) == cost(edges, before, k),
    decreases k,
{
    if k > 0 {
        lemma_shift_cost(n, edges, before, after, shift, (k - 1) as nat);
        assert(edges[k - 1].tail < n && edges[k - 1].head < n);
    }
}

/// Moving one node costs as much as its weight in exceeds its weight out.
proof fn lemma_move_cost(n: int, edges: Seq<RankEdge>, rank: Seq<i64>, v: int, to: i64, k: nat)
    requires
        is_rankable(n, edges),
        rank.len() == n,
        0 <= v < n,
        k <= edges.len(),
    ensures
        cost(edges, rank.update(v, to), k) - cost(edges, rank, k) == (to - rank[v]) * (weight_in(
            edges,
            v,
            k,
        ) - weight_out(edges, v, k)),
    decreases k,
{
    let d = to - rank[v];
    if k == 0 {
        assert(d * 0 == 0) by (nonlinear_arith);
    } else {
        lemma_move_cost(n, edges, rank, v, to, (k - 1) as nat);
        let e = edges[k - 1];
        assert(e.tail < n && e.head < n && e.tail != e.head);
        let next = rank.update(v, to);
        let w = e.weight as int;
        let (x, y) = (spec_slack(e, next), spec_slack(e, rank));
        let (a, b) = (weight_in(edges, v, (k - 1) as nat), weight_out(edges, v, (k - 1) as nat));
        if e.head == v {
            assert(x == y + d);
            assert(w * (y + d) == w * y + d * w) by (nonlinear_arith);
            assert(d * (a + w - b) == d * (a - b) + d * w) by (nonlinear_arith);
        } else if e.tail == v {
            assert(x == y - d);
            assert(w * (y - d) == w * y - d * w) by (nonlinear_arith);
            assert(d * (a - (b + w)) == d * (a - b) - d * w) by (nonlinear_arith);
        } else {
            assert(x == y);
        }
    }
}

proof fn lemma_balancing_cost(n: int, edges: Seq<RankEdge>, states: Seq<Seq<i64>>, v: int)
    requires
        is_rankable(n, edges),
        is_balancing(n, edges, states),
        states[0].len() == n,
        0 <= v <= n,
    ensures
        states[v].len() == n,
        cost(edges, states[v], edges.len()) == cost(edges, states[0], edges.len()),
    decreases v,
{
    if v > 0 {
        lemma_balancing_cost(n, edges, states, v - 1);
        assert(centres_at(edges, states, v - 1));
        let all = edges.len();
        let (a, b) = (weight_in(edges, v - 1, all), weight_out(edges, v - 1, all));
        if states[v] != states[v - 1] {
            let (lo, hi) = choose|lo: int, hi: int|
                {
                    &&& #[trigger] is_earliest(edges, states[v - 1], v - 1, all as int, lo)
                    &&& #[trigger] is_latest(edges, states[v - 1], v - 1, all as int, hi)
                    &&& states[v] == states[v - 1].update(v - 1, ((lo + hi) / 2) as i64)
                };
            let to = ((lo + hi) / 2) as i64;
            lemma_move_cost(n, edges, states[v - 1], v - 1, to, all);
            let d = to - states[v - 1][v - 1];
            assert(d * (a - b) == 0) by (nonlinear_arith)
                requires
                    a == b,
            ;
        }
    }
}

/// Where fewer exchanges were made than are allowed, no feasible ranking is cheaper.
pub proof fn law_simplex_finds_the_cheapest(n: int, edges: Seq<RankEdge>, s: Simplex, rank: Seq<i64>)
    requires
        is_rankable(n, edges),
        1 <= n <= usize::MAX,
        edges.len() <= usize::MAX,
        rank.len() == n,
        is_simplex(n, edges, s, rank),
        s.run.len() <= most_exchanges(n, edges),
    ensures
        is_cheapest(n, edges, rank),
{
    let last = s.run[s.run.len() - 1];
    law_settled_ranking_is_cheapest(n, edges, last.rank, last.tree);
    let level = s.balancing[0];
    let even = s.balancing[n];
    let shift = choose|shift: int| #[trigger] is_shifted(last.rank, level, shift);
    lemma_shift_cost(n, edges, last.rank, level, shift, edges.len());
    lemma_balancing_cost(n, edges, s.balancing, n);
    let again = choose|shift: int| #[trigger] is_shifted(even, rank, shift);
    lemma_shift_cost(n, edges, even, rank, again, edges.len());
}

} // verus!
