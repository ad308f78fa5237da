//! Depth-first numberings: what the numbers of a spanning tree say about walks.
//!
//! Nodes carry the numbers `1..=n` in the order in which a depth-first search
//! meets them; `parent[v]` is the node from which `v` was met.
use crate::graph::walk::{
    is_walk, lemma_extend, step_at, walk_between,
};
use vstd::prelude::*;

verus! {

/// `a` is `v` or one of its ancestors in the tree of `parent`.
pub open spec fn ancestor(parent: Seq<usize>, a: int, v: int) -> bool
    decreases v,
{
    a == v || (2 <= v < parent.len() && parent[v] < v && ancestor(parent, a, parent[v] as int))
}

/// `parent` is the tree of a numbering in preorder: a node hangs below the node
/// that was met just before it, or below one of its ancestors.
pub open spec fn is_preorder(parent: Seq<usize>) -> bool {
    forall|v: int|
        2 <= v < parent.len() ==> 1 <= (#[trigger] parent[v]) < v && ancestor(
            parent,
            parent[v] as int,
            v - 1,
        )
}

/// `parent` numbers the nodes of the step relation `e` depth-first: the tree is
/// made of steps, and a step to a higher number leads to a descendant.
pub open spec fn is_depth_first(e: spec_fn(int, int) -> bool, parent: Seq<usize>) -> bool {
    &&& is_preorder(parent)
    &&& forall|v: int| 2 <= v < parent.len() ==> e(#[trigger] parent[v] as int, v)
    &&& forall|x: int, y: int| #[trigger]
        e(x, y) ==> 1 <= x < parent.len() && 1 <= y < parent.len() && (x < y ==> ancestor(
            parent,
            x,
            y,
        ))
}

pub proof fn lemma_ancestor_bounds(parent: Seq<usize>, a: int, v: int)
    requires
        is_preorder(parent),
        ancestor(parent, a, v),
        1 <= v,
    ensures
        1 <= a <= v,
    decreases v,
{
    if a != v {
        lemma_ancestor_bounds(parent, a, parent[v] as int);
    }
}

pub proof fn lemma_ancestor_transitive(parent: Seq<usize>, a: int, b: int, c: int)
    requires
        ancestor(parent, a, b),
        ancestor(parent, b, c),
    ensures
        ancestor(parent, a, c),
    decreases c,
{
    if b != c {
        lemma_ancestor_transitive(parent, a, b, parent[c] as int);
    }
}

/// The ancestors of one node form a chain.
pub proof fn lemma_ancestors_ordered(parent: Seq<usize>, a: int, b: int, v: int)
    requires
        is_preorder(parent),
        ancestor(parent, a, v),
        ancestor(parent, b, v),
        1 <= a <= b,
        1 <= v,
    ensures
        ancestor(parent, a, b),
    decreases v,
{
    lemma_ancestor_bounds(parent, b, v);
    if b != v {
        if a == v {
        } else {
            lemma_ancestors_ordered(parent, a, b, parent[v] as int);
        }
    }
}

/// The descendants of a node have consecutive numbers.
pub proof fn lemma_descendants_consecutive(parent: Seq<usize>, a: int, m: int, v: int)
    requires
        is_preorder(parent),
        ancestor(parent, a, v),
        1 <= a <= m <= v,
        v < parent.len(),
    ensures
        ancestor(parent, a, m),
    decreases v,
{
    if m != v {
        assert(a != v);
        lemma_ancestor_transitive(parent, a, parent[v] as int, v - 1);
        lemma_descendants_consecutive(parent, a, m, v - 1);
    }
}

pub proof fn lemma_root_is_ancestor(parent: Seq<usize>, v: int)
    requires
        is_preorder(parent),
        1 <= v < parent.len(),
    ensures
        ancestor(parent, 1, v),
    decreases v,
{
    if v != 1 {
        lemma_root_is_ancestor(parent, parent[v] as int);
    }
}

/// The tree leads down from an ancestor through nodes that lie between the two.
pub proof fn lemma_tree_walk(e: spec_fn(int, int) -> bool, parent: Seq<usize>, a: int, v: int) -> (p:
    Seq<int>)
    requires
        is_depth_first(e, parent),
        ancestor(parent, a, v),
        1 <= v < parent.len(),
    ensures
        walk_between(e, p, a, v),
        forall|i: int|
            0 <= i < p.len() ==> ancestor(parent, a, #[trigger] p[i]) && ancestor(parent, p[i], v)
                && a <= p[i] <= v,
    decreases v,
{
    lemma_ancestor_bounds(parent, a, v);
    if a == v {
        crate::graph::walk::lemma_trivial_walk(e, a);
        seq![a]
    } else {
        let w = parent[v] as int;
        let p = lemma_tree_walk(e, parent, a, w);
        lemma_extend(e, p, a, w, v);
        let q = p.push(v);
        assert forall|i: int| 0 <= i < q.len() implies ancestor(parent, a, #[trigger] q[i])
            && ancestor(parent, q[i], v) && a <= q[i] <= v by {
            if i < p.len() {
                lemma_ancestor_transitive(parent, p[i], w, v);
            }
        }
        q
    }
}

/// The child of `a` through which the tree leads down to `v`.
pub open spec fn child_toward(parent: Seq<usize>, a: int, v: int) -> int
    decreases v,
{
    if 2 <= v < parent.len() && parent[v] < v && parent[v] != a {
        child_toward(parent, a, parent[v] as int)
    } else {
        v
    }
}

pub proof fn lemma_child_toward(parent: Seq<usize>, a: int, v: int)
    requires
        is_preorder(parent),
        ancestor(parent, a, v),
        1 <= a < v < parent.len(),
    ensures
        a < child_toward(parent, a, v) <= v,
        parent[child_toward(parent, a, v)] == a,
        ancestor(parent, child_toward(parent, a, v), v),
    decreases v,
{
    if parent[v] != a {
        lemma_ancestor_bounds(parent, a, parent[v] as int);
        lemma_child_toward(parent, a, parent[v] as int);
        assert(ancestor(parent, parent[v] as int, parent[v] as int));
        lemma_ancestor_transitive(
            parent,
            child_toward(parent, a, parent[v] as int),
            parent[v] as int,
            v,
        );
    }
}

/// A walk that climbs past the number `b` leaves from an ancestor of `b` as it does so.
pub proof fn lemma_climb(
    e: spec_fn(int, int) -> bool,
    parent: Seq<usize>,
    p: Seq<int>,
    from: int,
    to: int,
    b: int,
) -> (k: int)
    requires
        is_depth_first(e, parent),
        is_walk(e, p),
        0 <= from <= to < p.len(),
        p[from] < b <= p[to],
    ensures
        from <= k < to,
        p[k] < b,
        ancestor(parent, p[k], b),
    decreases to - from,
{
    assert(from < to);
    assert(step_at(e, p, from));
    if p[from + 1] >= b {
        lemma_descendants_consecutive(parent, p[from], b, p[from + 1]);
        from
    } else {
        lemma_climb(e, parent, p, from + 1, to, b)
    }
}

} // verus!
