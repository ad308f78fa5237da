//! Semidominators: how the numbers of a depth-first search determine dominators.
use crate::graph::analysis::numbering::{
    ancestor, is_depth_first, lemma_ancestor_bounds, lemma_ancestor_transitive,
    lemma_ancestors_ordered, lemma_climb, lemma_root_is_ancestor, lemma_tree_walk,
};
use crate::graph::walk::{
    joined, lemma_join, lemma_part, on_every_walk, step_at, walk_between,
};
use vstd::prelude::*;

verus! {

/// A walk from `v` to `w` of at least one step whose inner nodes have numbers above `w`.
pub open spec fn walk_above(e: spec_fn(int, int) -> bool, p: Seq<int>, v: int, w: int) -> bool {
    &&& walk_between(e, p, v, w)
    &&& p.len() >= 2
    &&& forall|i: int| 0 < i < p.len() - 1 ==> #[trigger] p[i] > w
}

pub open spec fn reaches_above(e: spec_fn(int, int) -> bool, v: int, w: int) -> bool {
    exists|p: Seq<int>| walk_above(e, p, v, w)
}

/// `s` is the semidominator of `w`: the least number that reaches `w` above `w`.
pub open spec fn is_semidominator(e: spec_fn(int, int) -> bool, s: int, w: int) -> bool {
    reaches_above(e, s, w) && forall|v: int| #[trigger] reaches_above(e, v, w) ==> s <= v
}

/// `i` is the immediate dominator of `w`, in terms of the tree: it lies on every
/// walk from the root, and no node of the tree between `i` and `w` does.
pub open spec fn is_tree_idom(
    e: spec_fn(int, int) -> bool,
    parent: Seq<usize>,
    i: int,
    w: int,
) -> bool {
    &&& i < w
    &&& ancestor(parent, i, w)
    &&& on_every_walk(e, 1, i, w)
    &&& forall|x: int| i < x < w && #[trigger] ancestor(parent, x, w) ==> !on_every_walk(e, 1, x, w)
}

/// A direct step reaches its target above it.
pub proof fn lemma_step_above(e: spec_fn(int, int) -> bool, v: int, w: int)
    requires
        e(v, w),
    ensures
        reaches_above(e, v, w),
{
    let p = seq![v, w];
    assert forall|i: int| 0 <= i < p.len() - 1 implies #[trigger] step_at(e, p, i) by {}
    assert(walk_above(e, p, v, w));
}

/// The semidominator of a node is one of its proper ancestors.
pub proof fn lemma_semidominator_is_ancestor(
    e: spec_fn(int, int) -> bool,
    parent: Seq<usize>,
    s: int,
    w: int,
)
    requires
        is_depth_first(e, parent),
        is_semidominator(e, s, w),
        2 <= w < parent.len(),
    ensures
        1 <= s < w,
        ancestor(parent, s, w),
{
    lemma_step_above(e, parent[w] as int, w);
    let p = choose|p: Seq<int>| walk_above(e, p, s, w);
    let k = lemma_climb(e, parent, p, 0, p.len() - 1, w);
    assert(k == 0);
    assert(step_at(e, p, 0));
}

/// A walk to `w` that misses its ancestor `t` enters the tree below `t` from above.
proof fn lemma_entry(
    e: spec_fn(int, int) -> bool,
    parent: Seq<usize>,
    p: Seq<int>,
    t: int,
    w: int,
) -> (xy: (int, int))
    requires
        is_depth_first(e, parent),
        1 <= w < parent.len(),
        ancestor(parent, t, w),
        walk_between(e, p, 1, w),
        !p.contains(t),
    ensures
        1 <= xy.0 < t < xy.1 <= w,
        ancestor(parent, t, xy.1),
        ancestor(parent, xy.1, w),
        reaches_above(e, xy.0, xy.1),
{
    lemma_ancestor_bounds(parent, t, w);
    assert(p[0] != t);
    assert(p[0] < t);
    let a = lemma_last_below(p, t, p.len() - 1);
    assert(p[p.len() - 1] != t);
    let b = lemma_first_between(parent, p, t, w, a + 1);
    let x = p[a];
    let y = p[b];
    lemma_ancestor_bounds(parent, y, w);
    lemma_ancestor_bounds(parent, t, y);
    assert(t != y);
    lemma_part(e, p, a, b);
    let q = p.subrange(a, b + 1);
    assert forall|i: int| 0 < i < q.len() - 1 implies #[trigger] q[i] > y by {
        let j = a + i;
        assert(p[j] >= t);
        if p[j] <= y {
            if p[j] < y {
                let k = lemma_climb(e, parent, p, j, b, y);
                lemma_ancestor_transitive(parent, p[k], y, w);
                assert(p[k] >= t);
                lemma_ancestors_ordered(parent, t, p[k], w);
                assert(false);
            } else {
                assert(false);
            }
        }
    }
    assert(walk_above(e, q, x, y));
    assert(step_at(e, p, a));
    (x, y)
}

proof fn lemma_last_below(p: Seq<int>, t: int, top: int) -> (a: int)
    requires
        0 <= top < p.len(),
        p[0] < t,
        forall|j: int| top < j < p.len() ==> #[trigger] p[j] >= t,
    ensures
        0 <= a <= top,
        p[a] < t,
        forall|j: int| a < j < p.len() ==> #[trigger] p[j] >= t,
    decreases top,
{
    if p[top] < t {
        top
    } else {
        lemma_last_below(p, t, top - 1)
    }
}

proof fn lemma_first_between(parent: Seq<usize>, p: Seq<int>, t: int, w: int, from: int) -> (b: int)
    requires
        0 <= from < p.len(),
        ancestor(parent, t, p[p.len() - 1]),
        ancestor(parent, p[p.len() - 1], w),
    ensures
        from <= b < p.len(),
        ancestor(parent, t, p[b]),
        ancestor(parent, p[b], w),
        forall|j: int|
            from <= j < b ==> !(ancestor(parent, t, #[trigger] p[j]) && ancestor(parent, p[j], w)),
    decreases p.len() - from,
{
    if ancestor(parent, t, p[from]) && ancestor(parent, p[from], w) {
        from
    } else {
        lemma_first_between(parent, p, t, w, from + 1)
    }
}

/// Down the tree to the semidominator and from there above `w`: a walk to `w`
/// that misses every node of the tree between the two.
proof fn lemma_walk_over(
    e: spec_fn(int, int) -> bool,
    parent: Seq<usize>,
    s: int,
    w: int,
) -> (p: Seq<int>)
    requires
        is_depth_first(e, parent),
        1 <= s < w < parent.len(),
        reaches_above(e, s, w),
    ensures
        walk_between(e, p, 1, w),
        forall|x: int| s < x < w ==> !p.contains(x),
{
    lemma_root_is_ancestor(parent, s);
    let p = lemma_tree_walk(e, parent, 1, s);
    let q = choose|q: Seq<int>| walk_above(e, q, s, w);
    lemma_join(e, p, q, 1, s, w);
    let r = joined(p, q);
    assert forall|x: int| s < x < w implies !r.contains(x) by {
        if p.contains(x) {
            let i = p.index_of(x);
            assert(p[i] <= s);
        }
        if q.contains(x) {
            let i = q.index_of(x);
            if 0 < i < q.len() - 1 {
                assert(q[i] > w);
            }
        }
    }
    r
}

/// Where no node between the semidominator and `w` has a lower semidominator,
/// the semidominator is the immediate dominator.
pub proof fn lemma_idom_is_semidominator(
    e: spec_fn(int, int) -> bool,
    parent: Seq<usize>,
    s: int,
    w: int,
)
    requires
        is_depth_first(e, parent),
        2 <= w < parent.len(),
        is_semidominator(e, s, w),
        forall|u: int, v: int|
            s < u && #[trigger] ancestor(parent, u, w) && #[trigger] reaches_above(e, v, u)
                ==> s <= v,
    ensures
        is_tree_idom(e, parent, s, w),
{
    lemma_semidominator_is_ancestor(e, parent, s, w);
    assert forall|p: Seq<int>| #[trigger] walk_between(e, p, 1, w) implies p.contains(s) by {
        if !p.contains(s) {
            let xy = lemma_entry(e, parent, p, s, w);
            assert(ancestor(parent, xy.1, w) && reaches_above(e, xy.0, xy.1));
        }
    }
    let p = lemma_walk_over(e, parent, s, w);
    assert forall|x: int| s < x < w && #[trigger] ancestor(parent, x, w) implies !on_every_walk(
        e,
        1,
        x,
        w,
    ) by {
        assert(walk_between(e, p, 1, w) && !p.contains(x));
    }
}

/// Where `u` has the least semidominator of the nodes between `s` and `w`, and it
/// lies below that of `w`, the immediate dominator of `u` is that of `w`.
pub proof fn lemma_idom_is_inherited(
    e: spec_fn(int, int) -> bool,
    parent: Seq<usize>,
    s: int,
    w: int,
    u: int,
    su: int,
    i: int,
)
    requires
        is_depth_first(e, parent),
        2 <= w < parent.len(),
        is_semidominator(e, s, w),
        s < u,
        ancestor(parent, u, w),
        is_semidominator(e, su, u),
        su < s,
        forall|z: int, v: int|
            s < z && #[trigger] ancestor(parent, z, w) && #[trigger] reaches_above(e, v, z)
                ==> su <= v,
        is_tree_idom(e, parent, i, u),
    ensures
        is_tree_idom(e, parent, i, w),
{
    lemma_semidominator_is_ancestor(e, parent, s, w);
    lemma_ancestor_bounds(parent, u, w);
    lemma_semidominator_is_ancestor(e, parent, su, u);
    lemma_ancestor_bounds(parent, i, u);
    lemma_ancestor_transitive(parent, i, u, w);
    let over_u = lemma_walk_over(e, parent, su, u);
    assert(over_u.contains(i));
    assert(i <= su);
    assert forall|p: Seq<int>| #[trigger] walk_between(e, p, 1, w) implies p.contains(i) by {
        if !p.contains(i) {
            let xy = lemma_entry(e, parent, p, i, w);
            let (x, y) = xy;
            if y > s {
                assert(ancestor(parent, y, w) && reaches_above(e, x, y));
                assert(false);
            }
            lemma_ancestors_ordered(parent, y, u, w);
            let q = lemma_walk_over(e, parent, x, y);
            let t = lemma_tree_walk(e, parent, y, u);
            lemma_join(e, q, t, 1, y, u);
            let r = joined(q, t);
            assert(r.contains(i));
            if t.contains(i) {
                let k = t.index_of(i);
                assert(t[k] >= y);
            }
            assert(false);
        }
    }
    let over_w = lemma_walk_over(e, parent, s, w);
    assert forall|x: int| i < x < w && #[trigger] ancestor(parent, x, w) implies !on_every_walk(
        e,
        1,
        x,
        w,
    ) by {
        if x < u {
            lemma_ancestors_ordered(parent, x, u, w);
            let q = choose|q: Seq<int>| walk_between(e, q, 1, u) && !q.contains(x);
            let t = lemma_tree_walk(e, parent, u, w);
            lemma_join(e, q, t, 1, u, w);
            let r = joined(q, t);
            if t.contains(x) {
                let k = t.index_of(x);
                assert(t[k] >= u);
            }
            assert(walk_between(e, r, 1, w) && !r.contains(x));
        } else {
            assert(walk_between(e, over_w, 1, w) && !over_w.contains(x));
        }
    }
}

/// What reaches an ancestor `u` of a predecessor of `w` above `u` reaches `w` above `w`.
pub proof fn lemma_reaches_above_via(
    e: spec_fn(int, int) -> bool,
    parent: Seq<usize>,
    t: int,
    u: int,
    v: int,
    w: int,
)
    requires
        is_depth_first(e, parent),
        e(v, w),
        w < u,
        ancestor(parent, u, v),
        reaches_above(e, t, u),
    ensures
        reaches_above(e, t, w),
{
    let p = choose|p: Seq<int>| walk_above(e, p, t, u);
    let q = lemma_tree_walk(e, parent, u, v);
    lemma_join(e, p, q, t, u, v);
    let r = joined(p, q);
    crate::graph::walk::lemma_extend(e, r, t, v, w);
    let full = r.push(w);
    assert forall|i: int| 0 < i < full.len() - 1 implies #[trigger] full[i] > w by {
        if i < p.len() - 1 {
            assert(r[i] == p[i]);
            assert(p[i] > u);
        } else {
            assert(r[i] == q[i - p.len() + 1]);
            assert(q[i - p.len() + 1] >= u);
        }
    }
    assert(walk_above(e, full, t, w));
}

/// The semidominator of `w` is the least of its lower predecessors and of the
/// semidominators of the higher ancestors of its higher predecessors.
pub proof fn lemma_semidominator_step(
    e: spec_fn(int, int) -> bool,
    parent: Seq<usize>,
    s: int,
    w: int,
)
    requires
        is_depth_first(e, parent),
        2 <= w < parent.len(),
        reaches_above(e, s, w),
        forall|v: int| #[trigger] e(v, w) && v < w ==> s <= v,
        forall|v: int, u: int, t: int|
            #[trigger] e(v, w) && w < u && #[trigger] ancestor(parent, u, v)
                && #[trigger] reaches_above(e, t, u) ==> s <= t,
    ensures
        is_semidominator(e, s, w),
{
    assert(e(parent[w] as int, w));
    assert forall|t: int| #[trigger] reaches_above(e, t, w) implies s <= t by {
        let p = choose|p: Seq<int>| walk_above(e, p, t, w);
        let last = p.len() - 1;
        assert(step_at(e, p, last - 1));
        if p.len() > 2 {
            let v = p[last - 1];
            let j = lemma_first_ancestor(parent, p, v, 1, last - 1);
            let u = p[j];
            lemma_part(e, p, 0, j);
            let q = p.subrange(0, j + 1);
            assert forall|i: int| 0 < i < q.len() - 1 implies #[trigger] q[i] > u by {
                if p[i] < u {
                    let k = lemma_climb(e, parent, p, i, j, u);
                    lemma_ancestor_transitive(parent, p[k], u, v);
                }
            }
            assert(walk_above(e, q, t, u));
            assert(e(v, w) && ancestor(parent, u, v) && reaches_above(e, t, u));
        }
    }
}

proof fn lemma_first_ancestor(parent: Seq<usize>, p: Seq<int>, v: int, from: int, to: int) -> (j:
    int)
    requires
        0 <= from <= to < p.len(),
        p[to] == v,
    ensures
        from <= j <= to,
        ancestor(parent, p[j], v),
        forall|i: int| from <= i < j ==> !ancestor(parent, #[trigger] p[i], v),
    decreases to - from,
{
    if ancestor(parent, p[from], v) {
        from
    } else {
        lemma_first_ancestor(parent, p, v, from + 1, to)
    }
}

} // verus!
