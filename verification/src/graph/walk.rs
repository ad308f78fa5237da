//! Walks over a step relation: the vocabulary of reachability and dominance.
use vstd::prelude::*;

verus! {

/// Position `i` of `p` is followed by a step of `e`.
pub open spec fn step_at<N>(e: spec_fn(N, N) -> bool, p: Seq<N>, i: int) -> bool {
    e(p[i], p[i + 1])
}

/// A non-empty sequence of nodes in which each is followed by one of its successors.
pub open spec fn is_walk<N>(e: spec_fn(N, N) -> bool, p: Seq<N>) -> bool {
    p.len() > 0 && forall|i: int| 0 <= i < p.len() - 1 ==> #[trigger] step_at(e, p, i)
}

/// A walk that begins at `a` and ends at `b`.
pub open spec fn walk_between<N>(e: spec_fn(N, N) -> bool, p: Seq<N>, a: N, b: N) -> bool {
    is_walk(e, p) && p[0] == a && p[p.len() - 1] == b
}

/// Some walk leads from `a` to `b`.
pub open spec fn reaches<N>(e: spec_fn(N, N) -> bool, a: N, b: N) -> bool {
    exists|p: Seq<N>| walk_between(e, p, a, b)
}

/// Every walk from `root` to `n` passes through `d`.
pub open spec fn on_every_walk<N>(e: spec_fn(N, N) -> bool, root: N, d: N, n: N) -> bool {
    forall|p: Seq<N>| #[trigger] walk_between(e, p, root, n) ==> p.contains(d)
}

/// `n` can be reached from `root`, and every walk there passes through `d`.
pub open spec fn dominates<N>(e: spec_fn(N, N) -> bool, root: N, d: N, n: N) -> bool {
    reaches(e, root, n) && on_every_walk(e, root, d, n)
}

/// `d` dominates `n` and is another node.
pub open spec fn strictly_dominates<N>(e: spec_fn(N, N) -> bool, root: N, d: N, n: N) -> bool {
    dominates(e, root, d, n) && d != n
}

/// `d` is the strict dominator of `n` that every other strict dominator of `n` dominates.
pub open spec fn immediately_dominates<N>(
    e: spec_fn(N, N) -> bool,
    root: N,
    d: N,
    n: N,
) -> bool {
    &&& strictly_dominates(e, root, d, n)
    &&& forall|c: N| #[trigger]
        strictly_dominates(e, root, c, n) ==> dominates(e, root, c, d)
}

/// The two walks `p` and `q`, which meet in one node, as one walk.
pub open spec fn joined<N>(p: Seq<N>, q: Seq<N>) -> Seq<N> {
    p + q.subrange(1, q.len() as int)
}

pub proof fn lemma_join<N>(e: spec_fn(N, N) -> bool, p: Seq<N>, q: Seq<N>, a: N, b: N, c: N)
    requires
        walk_between(e, p, a, b),
        walk_between(e, q, b, c),
    ensures
        walk_between(e, joined(p, q), a, c),
        joined(p, q).len() == p.len() + q.len() - 1,
        forall|x: N| #[trigger] joined(p, q).contains(x) <==> p.contains(x) || q.contains(x),
        forall|i: int| 0 <= i < p.len() ==> #[trigger] joined(p, q)[i] == p[i],
        forall|i: int|
            p.len() - 1 <= i < joined(p, q).len() ==> #[trigger] joined(p, q)[i] == q[i - p.len()
                + 1],
{
    let r = joined(p, q);
    assert forall|i: int| 0 <= i < r.len() - 1 implies #[trigger] step_at(e, r, i) by {
        if i < p.len() - 1 {
            assert(step_at(e, p, i));
        } else {
            assert(step_at(e, q, i - p.len() + 1));
        }
    }
    assert forall|x: N| #[trigger] r.contains(x) <==> p.contains(x) || q.contains(x) by {
        if p.contains(x) {
            let i = p.index_of(x);
            assert(r[i] == x);
        }
        if q.contains(x) {
            let i = choose|i: int| 0 <= i < q.len() && q[i] == x;
            assert(r[i + p.len() - 1] == x);
        }
        if r.contains(x) {
            let i = choose|i: int| 0 <= i < r.len() && r[i] == x;
            if i < p.len() {
                assert(p[i] == x);
            } else {
                assert(q[i - p.len() + 1] == x);
            }
        }
    }
}

/// The part of a walk between two positions is a walk.
pub proof fn lemma_part<N>(e: spec_fn(N, N) -> bool, p: Seq<N>, i: int, j: int)
    requires
        is_walk(e, p),
        0 <= i <= j < p.len(),
    ensures
        walk_between(e, p.subrange(i, j + 1), p[i], p[j]),
{
    let q = p.subrange(i, j + 1);
    assert forall|k: int| 0 <= k < q.len() - 1 implies #[trigger] step_at(e, q, k) by {
        assert(step_at(e, p, i + k));
    }
}

/// A walk can be extended by one step.
pub proof fn lemma_extend<N>(e: spec_fn(N, N) -> bool, p: Seq<N>, a: N, b: N, c: N)
    requires
        walk_between(e, p, a, b),
        e(b, c),
    ensures
        walk_between(e, p.push(c), a, c),
        forall|x: N| #[trigger] p.push(c).contains(x) <==> p.contains(x) || x == c,
{
    let q = p.push(c);
    assert forall|k: int| 0 <= k < q.len() - 1 implies #[trigger] step_at(e, q, k) by {
        if k < p.len() - 1 {
            assert(step_at(e, p, k));
        }
    }
    assert forall|x: N| #[trigger] q.contains(x) <==> p.contains(x) || x == c by {
        if p.contains(x) {
            let i = p.index_of(x);
            assert(q[i] == x);
        }
        if x == c {
            assert(q[p.len() as int] == x);
        }
    }
}

/// A single node is a walk from itself to itself.
pub proof fn lemma_trivial_walk<N>(e: spec_fn(N, N) -> bool, a: N)
    ensures
        walk_between(e, seq![a], a, a),
        reaches(e, a, a),
{
    assert(walk_between(e, seq![a], a, a));
}

/// A node that a walk passes can be reached along it.
pub proof fn lemma_on_walk_reached<N>(e: spec_fn(N, N) -> bool, p: Seq<N>, a: N, b: N, x: N)
    requires
        walk_between(e, p, a, b),
        p.contains(x),
    ensures
        reaches(e, a, x),
        reaches(e, x, b),
{
    let i = p.index_of(x);
    lemma_part(e, p, 0, i);
    lemma_part(e, p, i, p.len() - 1);
}

pub proof fn lemma_reaches_transitive<N>(e: spec_fn(N, N) -> bool, a: N, b: N, c: N)
    requires
        reaches(e, a, b),
        reaches(e, b, c),
    ensures
        reaches(e, a, c),
{
    let p = choose|p: Seq<N>| walk_between(e, p, a, b);
    let q = choose|q: Seq<N>| walk_between(e, q, b, c);
    lemma_join(e, p, q, a, b, c);
}

/// Every node that can be reached dominates itself, and the root dominates it.
pub proof fn lemma_dominance_reflexive<N>(e: spec_fn(N, N) -> bool, root: N, n: N)
    requires
        reaches(e, root, n),
    ensures
        dominates(e, root, n, n),
        dominates(e, root, root, n),
{
    assert forall|p: Seq<N>| #[trigger] walk_between(e, p, root, n) implies p.contains(n)
        && p.contains(root) by {
        assert(p[0] == root && p[p.len() - 1] == n);
    }
}

pub proof fn lemma_dominance_transitive<N>(e: spec_fn(N, N) -> bool, root: N, a: N, b: N, c: N)
    requires
        dominates(e, root, a, b),
        dominates(e, root, b, c),
    ensures
        dominates(e, root, a, c),
{
    assert forall|p: Seq<N>| #[trigger] walk_between(e, p, root, c) implies p.contains(a) by {
        let i = p.index_of(b);
        lemma_part(e, p, 0, i);
        let q = p.subrange(0, i + 1);
        let j = q.index_of(a);
        assert(p[j] == a);
    }
}

/// Two nodes that dominate one another are the same node.
pub proof fn lemma_dominance_antisymmetric<N>(e: spec_fn(N, N) -> bool, root: N, a: N, b: N)
    requires
        dominates(e, root, a, b),
        dominates(e, root, b, a),
    ensures
        a == b,
{
    let p = choose|p: Seq<N>| walk_between(e, p, root, b);
    assert(walk_between(e, p, root, b));
    lemma_shorter_to_the_absurd(e, root, a, b, p);
}

proof fn lemma_shorter_to_the_absurd<N>(
    e: spec_fn(N, N) -> bool,
    root: N,
    a: N,
    b: N,
    p: Seq<N>,
)
    requires
        dominates(e, root, a, b),
        dominates(e, root, b, a),
        walk_between(e, p, root, b),
    ensures
        a == b,
    decreases p.len(),
{
    if a != b {
        let i = p.index_of(a);
        lemma_part(e, p, 0, i);
        let q = p.subrange(0, i + 1);
        assert(i < p.len() - 1) by {
            assert(p[p.len() - 1] == b);
        }
        assert(walk_between(e, q, root, a));
        let j = q.index_of(b);
        lemma_part(e, q, 0, j);
        lemma_shorter_to_the_absurd(e, root, a, b, q.subrange(0, j + 1));
    }
}

/// Nothing but itself dominates the root.
pub proof fn law_root_is_dominated_by_itself_alone<N>(e: spec_fn(N, N) -> bool, root: N, d: N)
    ensures
        dominates(e, root, d, root) <==> d == root,
{
    lemma_trivial_walk(e, root);
    lemma_dominance_reflexive(e, root, root);
    if dominates(e, root, d, root) {
        let p = seq![root];
        assert(walk_between(e, p, root, root));
        assert(p.contains(d));
    }
}

/// Of two dominators of one node, one dominates the other.
pub proof fn law_dominators_are_ordered<N>(e: spec_fn(N, N) -> bool, root: N, a: N, b: N, n: N)
    requires
        dominates(e, root, a, n),
        dominates(e, root, b, n),
    ensures
        dominates(e, root, a, b) || dominates(e, root, b, a),
{
    let p = choose|p: Seq<N>| walk_between(e, p, root, n);
    lemma_on_walk_reached(e, p, root, n, a);
    lemma_on_walk_reached(e, p, root, n, b);
    if !dominates(e, root, a, b) && !dominates(e, root, b, a) {
        let pb = choose|q: Seq<N>| walk_between(e, q, root, b) && !q.contains(a);
        let pa = choose|q: Seq<N>| walk_between(e, q, root, a) && !q.contains(b);
        lemma_last_of_two(e, p, a, b, p.len() - 1);
        let i = choose|i: int|
            0 <= i < p.len() && (p[i] == a || p[i] == b) && forall|j: int|
                i < j < p.len() ==> p[j] != a && p[j] != b;
        lemma_part(e, p, i, p.len() - 1);
        let tail = p.subrange(i, p.len() as int);
        if p[i] == a {
            lemma_join(e, pa, tail, root, a, n);
            let q = joined(pa, tail);
            assert(q.contains(b));
            assert(tail.contains(b));
            let k = tail.index_of(b);
            assert(p[i + k] == b);
        } else {
            lemma_join(e, pb, tail, root, b, n);
            let q = joined(pb, tail);
            assert(q.contains(a));
            assert(tail.contains(a));
            let k = tail.index_of(a);
            assert(p[i + k] == a);
        }
    }
}

proof fn lemma_last_of_two<N>(e: spec_fn(N, N) -> bool, p: Seq<N>, a: N, b: N, top: int)
    requires
        0 <= top < p.len(),
        exists|i: int| 0 <= i <= top && (#[trigger] p[i] == a || p[i] == b),
        forall|j: int| top < j < p.len() ==> p[j] != a && p[j] != b,
    ensures
        exists|i: int|
            0 <= i < p.len() && (#[trigger] p[i] == a || p[i] == b) && forall|j: int|
                i < j < p.len() ==> p[j] != a && p[j] != b,
    decreases top,
{
    if p[top] != a && p[top] != b {
        lemma_last_of_two(e, p, a, b, top - 1);
    }
}

/// A node has at most one immediate dominator.
pub proof fn lemma_immediate_dominator_unique<N>(
    e: spec_fn(N, N) -> bool,
    root: N,
    c: N,
    d: N,
    n: N,
)
    requires
        immediately_dominates(e, root, c, n),
        immediately_dominates(e, root, d, n),
    ensures
        c == d,
{
    lemma_dominance_antisymmetric(e, root, c, d);
}

/// What strictly dominates a node dominates every predecessor that can be reached.
pub proof fn lemma_strict_dominates_pred<N>(e: spec_fn(N, N) -> bool, root: N, d: N, p: N, n: N)
    requires
        strictly_dominates(e, root, d, n),
        reaches(e, root, p),
        e(p, n),
    ensures
        dominates(e, root, d, p),
{
    assert forall|q: Seq<N>| #[trigger] walk_between(e, q, root, p) implies q.contains(d) by {
        lemma_extend(e, q, root, p, n);
        assert(q.push(n).contains(d));
    }
}

/// Where a walk leads, a walk leads that passes no node twice.
pub proof fn lemma_simple_walk<N>(e: spec_fn(N, N) -> bool, p: Seq<N>, a: N, b: N) -> (q: Seq<N>)
    requires
        walk_between(e, p, a, b),
    ensures
        walk_between(e, q, a, b),
        q.no_duplicates(),
        forall|x: N| #[trigger] q.contains(x) ==> p.contains(x),
    decreases p.len(),
{
    if p.no_duplicates() {
        p
    } else {
        let (i, j) = choose|i: int, j: int|
            0 <= i < p.len() && 0 <= j < p.len() && i != j && #[trigger] p[i] == #[trigger] p[j];
        let (i, j) = if i < j {
            (i, j)
        } else {
            (j, i)
        };
        lemma_part(e, p, 0, i);
        lemma_part(e, p, j, p.len() - 1);
        let (front, back) = (p.subrange(0, i + 1), p.subrange(j, p.len() as int));
        lemma_join(e, front, back, a, p[i], b);
        let shorter = joined(front, back);
        let q = lemma_simple_walk(e, shorter, a, b);
        assert forall|x: N| #[trigger] q.contains(x) implies p.contains(x) by {
            assert(shorter.contains(x));
            if front.contains(x) {
                assert(p[front.index_of(x)] == x);
            } else {
                assert(p[j + back.index_of(x)] == x);
            }
        }
        q
    }
}

} // verus!
