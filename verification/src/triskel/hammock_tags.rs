//! Summaries of the edges that leave the subtrees of a tree.
use crate::graph::analysis::sese::IEdge;
use crate::triskel::tree_index::{
    lemma_above_depth, lemma_above_ordered, lemma_above_transitive, lemma_parent_above,
    lemma_root_above, TreeIndex,
};
use vstd::prelude::*;

verus! {

/// The node to which a set of edges leads, if it is one node.
#[derive(Clone, Copy, PartialEq, Eq, Structural)]
pub enum Target {
    Nowhere,
    One(usize),
    Many,
}

impl Target {
    pub open spec fn spec_merge(self, other: Target) -> Target {
        match (self, other) {
            (Target::Nowhere, value) => value,
            (value, Target::Nowhere) => value,
            (Target::One(a), Target::One(b)) => if a == b {
                Target::One(a)
            } else {
                Target::Many
            },
            _ => Target::Many,
        }
    }

    pub fn merge(self, other: Target) -> (r: Target)
        ensures
            r == self.spec_merge(other),
    {
        match (self, other) {
            (Target::Nowhere, value) => value,
            (value, Target::Nowhere) => value,
            (Target::One(a), Target::One(b)) => if a == b {
                Target::One(a)
            } else {
                Target::Many
            },
            _ => Target::Many,
        }
    }
}

/// What is known of a set of edges: where they lead, the lowest common ancestor of their
/// sources, and the greatest of their lower depths.
#[derive(Clone, Copy, PartialEq, Eq, Structural)]
pub struct Tag {
    pub target: Target,
    pub source_lca: Option<usize>,
    pub lower_depth: usize,
}

/// The lowest common ancestor, as a function.
pub open spec fn lca_of(tree: TreeIndex, a: int, b: int) -> int {
    choose|c: int| tree.is_lca(a, b, c)
}

pub proof fn lemma_lca_of(tree: TreeIndex, root: int, a: int, b: int, c: int)
    requires
        tree.wf(root),
        0 <= a < tree.count(),
        0 <= b < tree.count(),
        tree.is_lca(a, b, c),
    ensures
        lca_of(tree, a, b) == c,
{
    let d = lca_of(tree, a, b);
    assert(tree.is_lca(a, b, d));
    assert(tree.above(c, d) && tree.above(d, c));
    lemma_above_depth(tree.parent@, root, tree.depth@, c, d);
    lemma_above_depth(tree.parent@, root, tree.depth@, d, c);
}

/// The depth below which an edge does not reach: the depth of the lowest common ancestor
/// of its ends, and one more where the edge does not end at that ancestor.
pub open spec fn lower_depth_of(tree: TreeIndex, edge: IEdge) -> int {
    let a = lca_of(tree, edge.from as int, edge.to as int);
    tree.depth@[a] + if a == edge.to {
        0int
    } else {
        1
    }
}

/// `tag` summarizes the edges with numbers in `set`.
pub open spec fn summarizes(tree: TreeIndex, edges: Seq<IEdge>, tag: Tag, set: Set<int>) -> bool {
    &&& match tag.target {
        Target::Nowhere => forall|j: int| !#[trigger] set.contains(j),
        Target::One(t) => {
            &&& exists|j: int| #[trigger] set.contains(j)
            &&& forall|j: int| #[trigger] set.contains(j) ==> edges[j].to == t
        },
        Target::Many => exists|j: int, k: int| #[trigger]
            set.contains(j) && #[trigger] set.contains(k) && edges[j].to != edges[k].to,
    }
    &&& match tag.source_lca {
        None => forall|j: int| !#[trigger] set.contains(j),
        Some(l) => {
            &&& exists|j: int| #[trigger] set.contains(j)
            &&& is_lca_of_sources(tree, edges, set, l as int)
        },
    }
    &&& forall|j: int| #[trigger]
        set.contains(j) ==> lower_depth_of(tree, edges[j]) <= tag.lower_depth
    &&& tag.lower_depth == 0 || exists|j: int| #[trigger]
        set.contains(j) && lower_depth_of(tree, edges[j]) == tag.lower_depth
}

/// `l` is the lowest node above the sources of all edges in `set`.
pub open spec fn is_lca_of_sources(
    tree: TreeIndex,
    edges: Seq<IEdge>,
    set: Set<int>,
    l: int,
) -> bool {
    &&& 0 <= l < tree.count()
    &&& forall|j: int| #[trigger] set.contains(j) ==> tree.above(l, edges[j].from as int)
    &&& forall|c: int|
        (forall|j: int| #[trigger] set.contains(j) ==> tree.above(c, edges[j].from as int))
            ==> #[trigger] tree.above(c, l)
}

pub open spec fn edges_in_tree(tree: TreeIndex, edges: Seq<IEdge>) -> bool {
    forall|j: int|
        #![trigger edges[j]]
        0 <= j < edges.len() ==> edges[j].from < tree.count() && edges[j].to < tree.count()
}

pub open spec fn numbers_of(edges: Seq<IEdge>, set: Set<int>) -> bool {
    forall|j: int| #[trigger] set.contains(j) ==> 0 <= j < edges.len()
}

/// The set that holds `j` alone.
pub open spec fn just(j: int) -> Set<int> {
    Set::empty().insert(j)
}

/// Merges two summaries into that of both sets.
#[verifier::rlimit(40)]
pub(crate) fn merge_tag(
    tree: &TreeIndex,
    Ghost(root): Ghost<int>,
    Ghost(edges): Ghost<Seq<IEdge>>,
    a: Tag,
    Ghost(s): Ghost<Set<int>>,
    b: Tag,
    Ghost(t): Ghost<Set<int>>,
) -> (tag: Tag)
    requires
        tree.wf(root),
        edges_in_tree(*tree, edges),
        numbers_of(edges, s),
        numbers_of(edges, t),
        summarizes(*tree, edges, a, s),
        summarizes(*tree, edges, b, t),
    ensures
        summarizes(*tree, edges, tag, s.union(t)),
        numbers_of(edges, s.union(t)),
{
    let target = a.target.merge(b.target);
    let source_lca = match (a.source_lca, b.source_lca) {
        (None, value) => value,
        (value, None) => value,
        (Some(x), Some(y)) => Some(tree.lca(Ghost(root), x, y)),
    };
    let lower_depth = if a.lower_depth > b.lower_depth {
        a.lower_depth
    } else {
        b.lower_depth
    };
    let tag = Tag { target, source_lca, lower_depth };
    proof {
        let u = s.union(t);
        assert forall|j: int| #[trigger] u.contains(j) <==> s.contains(j) || t.contains(j) by {}
        if a.target == Target::Nowhere {
            assert(u =~= t);
        } else if b.target == Target::Nowhere {
            assert(u =~= s);
        } else {
            let j = choose|j: int| s.contains(j);
            let k = choose|k: int| t.contains(k);
            assert(u.contains(j) && u.contains(k));
            if let (Target::One(x), Target::One(y)) = (a.target, b.target) {
                assert(edges[j].to == x && edges[k].to == y);
            }
            if a.target == Target::Many {
                let (p, q) = choose|p: int, q: int| #[trigger]
                    s.contains(p) && #[trigger] s.contains(q) && edges[p].to != edges[q].to;
                assert(u.contains(p) && u.contains(q));
            }
            if b.target == Target::Many {
                let (p, q) = choose|p: int, q: int| #[trigger]
                    t.contains(p) && #[trigger] t.contains(q) && edges[p].to != edges[q].to;
                assert(u.contains(p) && u.contains(q));
            }
        }
        match (a.source_lca, b.source_lca) {
            (Some(x), Some(y)) => {
                let l = source_lca->0;
                let j = choose|j: int| s.contains(j);
                assert(u.contains(j));
                assert forall|j: int| #[trigger] u.contains(j) implies tree.above(
                    l as int,
                    edges[j].from as int,
                ) by {
                    if s.contains(j) {
                        lemma_above_transitive(
                            tree.parent@,
                            tree.depth@,
                            l as int,
                            x as int,
                            edges[j].from as int,
                        );
                    } else {
                        lemma_above_transitive(
                            tree.parent@,
                            tree.depth@,
                            l as int,
                            y as int,
                            edges[j].from as int,
                        );
                    }
                }
                assert forall|c: int|
                    (forall|j: int| #[trigger] u.contains(j) ==> tree.above(c, edges[j].from as int)) implies
                    #[trigger] tree.above(c, l as int) by {
                    assert forall|j: int| #[trigger] s.contains(j) implies tree.above(
                        c,
                        edges[j].from as int,
                    ) by {
                        assert(u.contains(j));
                    }
                    assert forall|j: int| #[trigger] t.contains(j) implies tree.above(
                        c,
                        edges[j].from as int,
                    ) by {
                        assert(u.contains(j));
                    }
                    assert(tree.above(c, x as int));
                    assert(tree.above(c, y as int));
                }
            },
            (None, _) => {
                assert(u =~= t);
            },
            (_, None) => {
                assert(u =~= s);
            },
        }
        if tag.lower_depth != 0 {
            if a.lower_depth > b.lower_depth {
                let j = choose|j: int| #[trigger]
                    s.contains(j) && lower_depth_of(*tree, edges[j]) == a.lower_depth;
                assert(u.contains(j));
            } else {
                let j = choose|j: int| #[trigger]
                    t.contains(j) && lower_depth_of(*tree, edges[j]) == b.lower_depth;
                assert(u.contains(j));
            }
        }
    }
    tag
}

/// `k` is `node` or lies below it in the numbering of a binary heap.
pub(crate) open spec fn in_subtree(node: int, k: int) -> bool
    decreases k,
{
    k == node || (k > node && node >= 1 && in_subtree(node, k / 2))
}

proof fn lemma_subtree_child(node: int, child: int, k: int)
    requires
        node >= 1,
        child == 2 * node || child == 2 * node + 1,
        in_subtree(child, k),
    ensures
        in_subtree(node, k),
        k != node,
    decreases k,
{
    if k == child {
        assert(k / 2 == node);
        assert(in_subtree(node, node));
    } else {
        lemma_subtree_child(node, child, k / 2);
    }
}

proof fn lemma_subtrees_apart(node: int, k: int)
    requires
        node >= 1,
    ensures
        !(in_subtree(2 * node, k) && in_subtree(2 * node + 1, k)),
    decreases k,
{
    if in_subtree(2 * node, k) && in_subtree(2 * node + 1, k) {
        if k == 2 * node + 1 {
            assert(k / 2 == node);
            assert(in_subtree(2 * node, node));
        } else if k > 2 * node + 1 {
            lemma_subtrees_apart(node, k / 2);
        }
    }
}

/// The least power of two that is no less than `size`.
pub(crate) open spec fn room(size: int) -> int
    decreases size,
{
    if size <= 1 {
        1
    } else {
        2 * room((size + 1) / 2)
    }
}

proof fn lemma_room(size: int, other: int)
    requires
        1 <= size <= other,
    ensures
        1 <= room(size) <= room(other),
        size >= 2 ==> room(size) <= 2 * (size - 1),
    decreases other,
{
    if other >= 2 {
        if size >= 2 {
            lemma_room((size + 1) / 2, (other + 1) / 2);
        } else {
            lemma_room(1, (other + 1) / 2);
        }
    }
}

/// The numbers of the heap below `node`, which covers `size` places, are below `len`.
pub(crate) open spec fn has_room(node: int, size: int, len: int) -> bool {
    node >= 1 && (node + 1) * room(size) <= len
}

proof fn lemma_has_room(node: int, lo: int, hi: int, len: int)
    requires
        lo < hi,
        has_room(node, hi - lo, len),
    ensures
        node < len,
        hi - lo >= 2 ==> has_room(2 * node, (lo + hi) / 2 - lo, len),
        hi - lo >= 2 ==> has_room(2 * node + 1, hi - (lo + hi) / 2, len),
{
    let size = hi - lo;
    lemma_room(size, size);
    assert((node + 1) * room(size) >= node + 1) by (nonlinear_arith)
        requires
            room(size) >= 1,
            node >= 1,
    ;
    if size >= 2 {
        let left = (lo + hi) / 2 - lo;
        let right = hi - (lo + hi) / 2;
        assert(left == size / 2 && right == (size + 1) / 2);
        lemma_room(left, right);
        let (a, b) = (room(left), room(right));
        assert((2 * node + 1) * a <= (node + 1) * (2 * b)) by (nonlinear_arith)
            requires
                1 <= a <= b,
                node >= 1,
        ;
        assert((2 * node + 1 + 1) * b == (node + 1) * (2 * b)) by (nonlinear_arith);
    }
}

/// Sets of edges kept in a binary heap of ranges; the edges at a place are those of all
/// the ranges around it.
pub(crate) struct TagTree {
    pub tags: Vec<Tag>,
    pub sets: Ghost<Map<int, Set<int>>>,
}

/// The edges at the place `p`, in the part of the heap below `node`.
pub(crate) open spec fn at_place(sets: Map<int, Set<int>>, node: int, lo: int, hi: int, p: int) -> Set<int>
    decreases hi - lo,
{
    if hi - lo <= 1 {
        sets[node]
    } else {
        let mid = (lo + hi) / 2;
        if p < mid {
            sets[node].union(at_place(sets, 2 * node, lo, mid, p))
        } else {
            sets[node].union(at_place(sets, 2 * node + 1, mid, hi, p))
        }
    }
}

proof fn lemma_at_place_frame(
    s: Map<int, Set<int>>,
    t: Map<int, Set<int>>,
    node: int,
    lo: int,
    hi: int,
    p: int,
)
    requires
        node >= 1,
        lo <= p < hi,
        forall|k: int| in_subtree(node, k) ==> #[trigger] s[k] == t[k],
    ensures
        at_place(s, node, lo, hi, p) == at_place(t, node, lo, hi, p),
    decreases hi - lo,
{
    assert(in_subtree(node, node));
    assert(s[node] == t[node]);
    if hi - lo > 1 {
        let mid = (lo + hi) / 2;
        let child = if p < mid {
            2 * node
        } else {
            2 * node + 1
        };
        assert forall|k: int| in_subtree(child, k) implies #[trigger] s[k] == t[k] by {
            lemma_subtree_child(node, child, k);
        }
        if p < mid {
            lemma_at_place_frame(s, t, child, lo, mid, p);
        } else {
            lemma_at_place_frame(s, t, child, mid, hi, p);
        }
    }
}

impl TagTree {
    pub(crate) open spec fn wf(&self, tree: TreeIndex, edges: Seq<IEdge>) -> bool {
        &&& forall|k: int|
            #![trigger self.sets@[k]]
            #![trigger self.tags@[k]]
            0 <= k < self.tags@.len() ==> summarizes(tree, edges, self.tags@[k], self.sets@[k])
                && numbers_of(edges, self.sets@[k])
    }

    /// The edges at the place `p` out of `n`.
    pub(crate) open spec fn at(&self, n: int, p: int) -> Set<int> {
        at_place(self.sets@, 1, 0, n, p)
    }

    /// Adds the edge `j`, of which `tag` is the summary, at the places from `ql` to `qr`.
    #[verifier::rlimit(40)]
    fn range_update(
        &mut self,
        tree: &TreeIndex,
        Ghost(root): Ghost<int>,
        Ghost(edges): Ghost<Seq<IEdge>>,
        node: usize,
        lo: usize,
        hi: usize,
        ql: usize,
        qr: usize,
        tag: Tag,
        Ghost(j): Ghost<int>,
    )
        requires
            tree.wf(root),
            edges_in_tree(*tree, edges),
            old(self).wf(*tree, edges),
            lo < hi,
            2 * hi <= usize::MAX,
            2 * old(self).tags@.len() <= usize::MAX,
            has_room(node as int, hi - lo, old(self).tags@.len() as int),
            0 <= j < edges.len(),
            summarizes(*tree, edges, tag, just(j)),
        ensures
            final(self).wf(*tree, edges),
            final(self).tags@.len() == old(self).tags@.len(),
            forall|k: int|
                !in_subtree(node as int, k) ==> #[trigger] final(self).sets@[k] == old(self).sets@[k],
            forall|p: int|
                lo <= p < hi ==> #[trigger] at_place(
                    final(self).sets@,
                    node as int,
                    lo as int,
                    hi as int,
                    p,
                ) == if ql <= p < qr {
                    at_place(old(self).sets@, node as int, lo as int, hi as int, p).insert(j)
                } else {
                    at_place(old(self).sets@, node as int, lo as int, hi as int, p)
                },
        decreases hi - lo,
    {
        let ghost before = *self;
        proof {
            lemma_has_room(node as int, lo as int, hi as int, self.tags@.len() as int);
        }
        if ql >= hi || qr <= lo {
            return;
        }
        if ql <= lo && hi <= qr {
            let old_tag = self.tags[node];
            assert(summarizes(*tree, edges, self.tags@[node as int], self.sets@[node as int]));
            let merged = merge_tag(
                tree,
                Ghost(root),
                Ghost(edges),
                old_tag,
                Ghost(self.sets@[node as int]),
                tag,
                Ghost(just(j)),
            );
            self.tags.set(node, merged);
            self.sets = Ghost(
                self.sets@.insert(node as int, self.sets@[node as int].union(just(j))),
            );
            proof {
                assert forall|k: int|
                    #![trigger self.sets@[k]]
                    #![trigger self.tags@[k]]
                    0 <= k < self.tags@.len() implies summarizes(
                    *tree,
                    edges,
                    self.tags@[k],
                    self.sets@[k],
                ) && numbers_of(edges, self.sets@[k]) by {
                    if k != node {
                        assert(before.sets@[k] == self.sets@[k]);
                        assert(before.tags@[k] == self.tags@[k]);
                    }
                }
                assert forall|k: int| !in_subtree(node as int, k) implies #[trigger] self.sets@[k]
                    == before.sets@[k] by {
                    assert(in_subtree(node as int, node as int));
                }
                assert forall|p: int| lo <= p < hi implies #[trigger] at_place(
                    self.sets@,
                    node as int,
                    lo as int,
                    hi as int,
                    p,
                ) == at_place(before.sets@, node as int, lo as int, hi as int, p).insert(j) by {
                    lemma_top_insert(before.sets@, self.sets@, node as int, lo as int, hi as int, p, j);
                }
            }
            return;
        }
        assert(hi - lo >= 2);
        let mid: usize = (lo + hi) / 2;
        assert(node < self.tags@.len());
        self.range_update(
            tree,
            Ghost(root),
            Ghost(edges),
            node * 2,
            lo,
            mid,
            ql,
            qr,
            tag,
            Ghost(j),
        );
        let ghost left = *self;
        proof {
            lemma_has_room(node as int, lo as int, hi as int, self.tags@.len() as int);
        }
        self.range_update(
            tree,
            Ghost(root),
            Ghost(edges),
            node * 2 + 1,
            mid,
            hi,
            ql,
            qr,
            tag,
            Ghost(j),
        );
        proof {
            let (l, r) = (2 * node as int, 2 * node as int + 1);
            assert forall|k: int| !in_subtree(node as int, k) implies #[trigger] self.sets@[k]
                == before.sets@[k] by {
                if in_subtree(l, k) {
                    lemma_subtree_child(node as int, l, k);
                }
                if in_subtree(r, k) {
                    lemma_subtree_child(node as int, r, k);
                }
                assert(left.sets@[k] == before.sets@[k]);
            }
            assert(self.sets@[node as int] == before.sets@[node as int]) by {
                if in_subtree(l, node as int) {
                    lemma_subtree_child(node as int, l, node as int);
                }
                if in_subtree(r, node as int) {
                    lemma_subtree_child(node as int, r, node as int);
                }
                assert(left.sets@[node as int] == before.sets@[node as int]);
            }
            assert forall|p: int| lo <= p < hi implies #[trigger] at_place(
                self.sets@,
                node as int,
                lo as int,
                hi as int,
                p,
            ) == if ql <= p < qr {
                at_place(before.sets@, node as int, lo as int, hi as int, p).insert(j)
            } else {
                at_place(before.sets@, node as int, lo as int, hi as int, p)
            } by {
                let top = before.sets@[node as int];
                if p < mid {
                    assert forall|k: int| in_subtree(l, k) implies #[trigger] self.sets@[k]
                        == left.sets@[k] by {
                        lemma_subtrees_apart(node as int, k);
                    }
                    lemma_at_place_frame(self.sets@, left.sets@, l, lo as int, mid as int, p);
                    let inner = at_place(before.sets@, l, lo as int, mid as int, p);
                    assert(top.union(inner.insert(j)) =~= top.union(inner).insert(j));
                    assert(at_place(left.sets@, (node * 2) as int, lo as int, mid as int, p) == if ql <= p < qr {
                        inner.insert(j)
                    } else {
                        inner
                    });
                    assert(at_place(self.sets@, node as int, lo as int, hi as int, p) == top.union(
                        at_place(self.sets@, l, lo as int, mid as int, p),
                    ));
                    assert(at_place(before.sets@, node as int, lo as int, hi as int, p) == top.union(inner));
                } else {
                    assert forall|k: int| in_subtree(r, k) implies #[trigger] left.sets@[k]
                        == before.sets@[k] by {
                        lemma_subtrees_apart(node as int, k);
                    }
                    lemma_at_place_frame(left.sets@, before.sets@, r, mid as int, hi as int, p);
                    let inner = at_place(before.sets@, r, mid as int, hi as int, p);
                    assert(top.union(inner.insert(j)) =~= top.union(inner).insert(j));
                    assert(at_place(self.sets@, (node * 2 + 1) as int, mid as int, hi as int, p) == if ql <= p < qr {
                        inner.insert(j)
                    } else {
                        inner
                    });
                    assert(at_place(self.sets@, node as int, lo as int, hi as int, p) == top.union(
                        at_place(self.sets@, r, mid as int, hi as int, p),
                    ));
                    assert(at_place(before.sets@, node as int, lo as int, hi as int, p) == top.union(inner));
                }
            }
        }
    }
}

proof fn lemma_top_insert(
    s: Map<int, Set<int>>,
    t: Map<int, Set<int>>,
    node: int,
    lo: int,
    hi: int,
    p: int,
    j: int,
)
    requires
        node >= 1,
        t == s.insert(node, s[node].union(just(j))),
        lo <= p < hi,
    ensures
        at_place(t, node, lo, hi, p) == at_place(s, node, lo, hi, p).insert(j),
{
    if hi - lo <= 1 {
        assert(t[node] =~= s[node].insert(j));
    } else {
        let mid = (lo + hi) / 2;
        let child = if p < mid {
            2 * node
        } else {
            2 * node + 1
        };
        assert forall|k: int| in_subtree(child, k) implies #[trigger] s[k] == t[k] by {
            lemma_subtree_child(node, child, k);
        }
        if p < mid {
            lemma_at_place_frame(s, t, child, lo, mid, p);
            let inner = at_place(s, child, lo, mid, p);
            assert(t[node].union(inner) =~= s[node].union(inner).insert(j));
        } else {
            lemma_at_place_frame(s, t, child, mid, hi, p);
            let inner = at_place(s, child, mid, hi, p);
            assert(t[node].union(inner) =~= s[node].union(inner).insert(j));
        }
    }
}

/// The places from the head of a path to one of its nodes belong to the nodes of the path
/// above that node.
pub proof fn lemma_path_places(tree: TreeIndex, root: int, x: int, p: int)
    requires
        tree.wf(root),
        0 <= x < tree.count(),
        tree.tin@[tree.head@[x] as int] <= p <= tree.tin@[x],
    ensures
        tree.above(tree.at_pos@[p] as int, x),
        tree.above(tree.head@[x] as int, tree.at_pos@[p] as int),
        tree.head@[tree.at_pos@[p] as int] == tree.head@[x],
    decreases tree.depth@[x],
{
    assert(tree.on_path(root, x));
    lemma_head_is_above(tree, root, x);
    if p == tree.tin@[x] {
        assert(tree.above(x, x));
    } else {
        assert(tree.head@[x] != x);
        let up = tree.parent@[x] as int;
        assert(tree.depth@[x] == tree.depth@[up] + 1);
        lemma_path_places(tree, root, up, p);
        lemma_parent_above(tree.parent@, root, tree.depth@, x, x);
        lemma_above_transitive(tree.parent@, tree.depth@, tree.at_pos@[p] as int, up, x);
    }
}

/// The head of a path is above its nodes, and is its own head.
pub proof fn lemma_head_is_above(tree: TreeIndex, root: int, x: int)
    requires
        tree.wf(root),
        0 <= x < tree.count(),
    ensures
        tree.above(tree.head@[x] as int, x),
        tree.head@[tree.head@[x] as int] == tree.head@[x],
        tree.tin@[tree.head@[x] as int] <= tree.tin@[x],
        tree.head@[x] < tree.count(),
    decreases tree.depth@[x],
{
    assert(tree.on_path(root, x));
    if tree.head@[x] != x {
        let up = tree.parent@[x] as int;
        assert(tree.depth@[x] == tree.depth@[up] + 1);
        lemma_head_is_above(tree, root, up);
        lemma_parent_above(tree.parent@, root, tree.depth@, x, x);
        lemma_above_transitive(tree.parent@, tree.depth@, tree.head@[x] as int, up, x);
    } else {
        assert(tree.above(x, x));
    }
}

/// What is above a node and not above the head of its path has a place on the path.
pub proof fn lemma_above_on_path(tree: TreeIndex, root: int, y: int, x: int)
    requires
        tree.wf(root),
        0 <= x < tree.count(),
        tree.above(y, x),
    ensures
        0 <= y < tree.count(),
        tree.tin@[y] <= tree.tin@[x],
        tree.tin@[tree.head@[x] as int] <= tree.tin@[y] || tree.above(y, tree.head@[x] as int),
        tree.tin@[tree.head@[x] as int] <= tree.tin@[y] ==> tree.head@[y] == tree.head@[x],
{
    lemma_above_depth(tree.parent@, root, tree.depth@, y, x);
    lemma_head_is_above(tree, root, x);
    let h = tree.head@[x] as int;
    assert(tree.above(y, x));
    if tree.depth@[y] <= tree.depth@[h] {
        lemma_above_ordered(tree.parent@, root, tree.depth@, y, h, x);
        if tree.tin@[h] <= tree.tin@[y] {
            assert(tree.above(y, h));
            assert(tree.at_pos@[tree.tin@[y] as int] == y);
            assert(tree.at_pos@[tree.tin@[h] as int] == h);
        }
    } else {
        lemma_above_ordered(tree.parent@, root, tree.depth@, h, y, x);
        assert(tree.above(h, y));
    }
    if tree.tin@[h] <= tree.tin@[y] {
        lemma_path_places(tree, root, x, tree.tin@[y] as int);
    }
}

impl TagTree {
    /// Adds the edge `j` at the nodes that are above `u` and not above `ancestor`.
    #[verifier::rlimit(40)]
    pub(crate) fn update_up_exclusive(
        &mut self,
        tree: &TreeIndex,
        Ghost(root): Ghost<int>,
        Ghost(edges): Ghost<Seq<IEdge>>,
        u: usize,
        ancestor: usize,
        tag: Tag,
        n: usize,
        Ghost(j): Ghost<int>,
    )
        requires
            tree.wf(root),
            n == tree.count(),
            edges_in_tree(*tree, edges),
            old(self).wf(*tree, edges),
            8 * n <= usize::MAX,
            2 * old(self).tags@.len() <= usize::MAX,
            has_room(1, n as int, old(self).tags@.len() as int),
            u < n,
            ancestor < n,
            tree.above(ancestor as int, u as int),
            0 <= j < edges.len(),
            summarizes(*tree, edges, tag, just(j)),
        ensures
            final(self).wf(*tree, edges),
            final(self).tags@.len() == old(self).tags@.len(),
            forall|v: int|
                0 <= v < n ==> #[trigger] final(self).at(n as int, tree.tin@[v] as int) == if tree.above(
                    v,
                    u as int,
                ) && !tree.above(v, ancestor as int) {
                    old(self).at(n as int, tree.tin@[v] as int).insert(j)
                } else {
                    old(self).at(n as int, tree.tin@[v] as int)
                },
    {
        let ghost (parent, depth) = (tree.parent@, tree.depth@);
        let ghost before = *self;
        let mut x: usize = u;
        assert(tree.above(u as int, u as int));
        while tree.head[x] != tree.head[ancestor]
            invariant
                tree.wf(root),
                n == tree.count(),
                parent == tree.parent@,
                depth == tree.depth@,
                edges_in_tree(*tree, edges),
                self.wf(*tree, edges),
                self.tags@.len() == before.tags@.len(),
                8 * n <= usize::MAX,
                2 * self.tags@.len() <= usize::MAX,
                has_room(1, n as int, self.tags@.len() as int),
                u < n,
                ancestor < n,
                x < n,
                tree.above(ancestor as int, x as int),
                tree.above(x as int, u as int),
                0 <= j < edges.len(),
                summarizes(*tree, edges, tag, just(j)),
                forall|v: int|
                    0 <= v < n ==> #[trigger] self.at(n as int, tree.tin@[v] as int) == if tree.above(
                        v,
                        u as int,
                    ) && !tree.above(v, x as int) {
                        before.at(n as int, tree.tin@[v] as int).insert(j)
                    } else {
                        before.at(n as int, tree.tin@[v] as int)
                    },
            decreases depth[x as int],
        {
            let h: usize = tree.head[x];
            let ghost mid = *self;
            proof {
                lemma_head_is_above(*tree, root, x as int);
                lemma_above_on_path(*tree, root, ancestor as int, x as int);
                assert(tree.tin@[x as int] < tree.tout@[x as int]);
            }
            self.range_update(
                tree,
                Ghost(root),
                Ghost(edges),
                1,
                0,
                n,
                tree.tin[h],
                tree.tin[x] + 1,
                tag,
                Ghost(j),
            );
            proof {
                assert(tree.above(ancestor as int, h as int));
                assert(h != ancestor);
                if h == root {
                    lemma_root_above(parent, root, depth, ancestor as int);
                    lemma_above_depth(parent, root, depth, ancestor as int, root);
                    lemma_above_depth(parent, root, depth, root, ancestor as int);
                }
                let up = parent[h as int] as int;
                lemma_parent_above(parent, root, depth, ancestor as int, h as int);
                lemma_above_transitive(parent, depth, up, h as int, x as int);
                lemma_above_transitive(parent, depth, up, x as int, u as int);
                lemma_above_depth(parent, root, depth, h as int, x as int);
                assert(depth[h as int] == depth[up] + 1);
                assert forall|v: int| 0 <= v < n implies #[trigger] self.at(
                    n as int,
                    tree.tin@[v] as int,
                ) == if tree.above(v, u as int) && !tree.above(v, up) {
                    before.at(n as int, tree.tin@[v] as int).insert(j)
                } else {
                    before.at(n as int, tree.tin@[v] as int)
                } by {
                    let p = tree.tin@[v] as int;
                    assert(mid.at(n as int, p) == at_place(mid.sets@, 1, 0, n as int, p));
                    assert(self.at(n as int, p) == at_place(self.sets@, 1, 0, n as int, p));
                    assert(tree.tin@[v] < tree.tout@[v]);
                    if tree.tin@[h as int] <= p <= tree.tin@[x as int] {
                        lemma_path_places(*tree, root, x as int, p);
                        assert(tree.at_pos@[p] == v);
                        lemma_above_transitive(parent, depth, v, x as int, u as int);
                        if tree.above(v, up) {
                            lemma_above_transitive(parent, depth, h as int, v, up);
                            lemma_above_depth(parent, root, depth, h as int, up);
                        }
                        assert(before.at(n as int, p).insert(j).insert(j) =~= before.at(
                            n as int,
                            p,
                        ).insert(j));
                    } else {
                        if tree.above(v, u as int) {
                            if tree.above(v, x as int) {
                                lemma_above_on_path(*tree, root, v, x as int);
                                lemma_parent_above(parent, root, depth, v, h as int);
                                if v == h {
                                    assert(false);
                                }
                            } else if tree.above(v, up) {
                                lemma_above_transitive(parent, depth, v, up, x as int);
                            }
                        }
                    }
                }
            }
            x = tree.parent[h];
        }
        if x != ancestor {
            let ghost mid = *self;
            proof {
                lemma_above_on_path(*tree, root, ancestor as int, x as int);
                lemma_head_is_above(*tree, root, ancestor as int);
                assert(tree.tin@[x as int] < tree.tout@[x as int]);
                assert(tree.tin@[ancestor as int] < tree.tout@[ancestor as int]);
            }
            self.range_update(
                tree,
                Ghost(root),
                Ghost(edges),
                1,
                0,
                n,
                tree.tin[ancestor] + 1,
                tree.tin[x] + 1,
                tag,
                Ghost(j),
            );
            proof {
                assert forall|v: int| 0 <= v < n implies #[trigger] self.at(
                    n as int,
                    tree.tin@[v] as int,
                ) == if tree.above(v, u as int) && !tree.above(v, ancestor as int) {
                    before.at(n as int, tree.tin@[v] as int).insert(j)
                } else {
                    before.at(n as int, tree.tin@[v] as int)
                } by {
                    let p = tree.tin@[v] as int;
                    assert(mid.at(n as int, p) == at_place(mid.sets@, 1, 0, n as int, p));
                    assert(self.at(n as int, p) == at_place(self.sets@, 1, 0, n as int, p));
                    assert(tree.tin@[v] < tree.tout@[v]);
                    assert(tree.at_pos@[p] == v);
                    if tree.tin@[ancestor as int] < p <= tree.tin@[x as int] {
                        lemma_path_places(*tree, root, x as int, p);
                        lemma_above_transitive(parent, depth, v, x as int, u as int);
                        if tree.above(v, ancestor as int) {
                            assert(tree.tin@[v] <= tree.tin@[ancestor as int]);
                        }
                        assert(before.at(n as int, p).insert(j).insert(j) =~= before.at(
                            n as int,
                            p,
                        ).insert(j));
                    } else if tree.above(v, u as int) {
                        if tree.above(v, x as int) {
                            assert(tree.tin@[v] <= tree.tin@[x as int]);
                            assert(tree.tin@[v] <= tree.tin@[ancestor as int]);
                            if depth[v] <= depth[ancestor as int] {
                                lemma_above_ordered(parent, root, depth, v, ancestor as int, x as int);
                            } else {
                                lemma_above_ordered(parent, root, depth, ancestor as int, v, x as int);
                                assert(tree.above(ancestor as int, v));
                                assert(tree.at_pos@[tree.tin@[ancestor as int] as int] == ancestor);
                            }
                        } else if tree.above(v, ancestor as int) {
                            lemma_above_transitive(parent, depth, v, ancestor as int, x as int);
                        }
                    }
                }
            }
        }
    }

    /// Gathers, for the places from `lo` to `hi`, the summaries of the edges there, on top
    /// of those of the set `above`.
    #[verifier::rlimit(40)]
    fn collect_tags(
        &self,
        tree: &TreeIndex,
        Ghost(root): Ghost<int>,
        Ghost(edges): Ghost<Seq<IEdge>>,
        node: usize,
        lo: usize,
        hi: usize,
        inherited: Tag,
        Ghost(above): Ghost<Set<int>>,
        out: &mut Vec<Tag>,
    )
        requires
            tree.wf(root),
            edges_in_tree(*tree, edges),
            self.wf(*tree, edges),
            lo < hi <= tree.count(),
            2 * hi <= usize::MAX,
            2 * self.tags@.len() <= usize::MAX,
            has_room(node as int, hi - lo, self.tags@.len() as int),
            summarizes(*tree, edges, inherited, above),
            numbers_of(edges, above),
            old(out)@.len() == tree.count(),
        ensures
            final(out)@.len() == tree.count(),
            forall|p: int|
                #![trigger tree.at_pos@[p]]
                lo <= p < hi ==> summarizes(
                    *tree,
                    edges,
                    final(out)@[tree.at_pos@[p] as int],
                    above.union(at_place(self.sets@, node as int, lo as int, hi as int, p)),
                ),
            forall|v: int|
                0 <= v < tree.count() && !(lo <= tree.tin@[v] < hi) ==> #[trigger] final(out)@[v]
                    == old(out)@[v],
        decreases hi - lo,
    {
        proof {
            lemma_has_room(node as int, lo as int, hi as int, self.tags@.len() as int);
            assert(summarizes(*tree, edges, self.tags@[node as int], self.sets@[node as int]));
        }
        let combined = merge_tag(
            tree,
            Ghost(root),
            Ghost(edges),
            inherited,
            Ghost(above),
            self.tags[node],
            Ghost(self.sets@[node as int]),
        );
        let ghost all = above.union(self.sets@[node as int]);
        if hi - lo == 1 {
            assert(tree.at_pos@[lo as int] < tree.count());
            out.set(tree.at_pos[lo], combined);
            return;
        }
        let mid: usize = (lo + hi) / 2;
        self.collect_tags(
            tree,
            Ghost(root),
            Ghost(edges),
            node * 2,
            lo,
            mid,
            combined,
            Ghost(all),
            out,
        );
        let ghost left = out@;
        self.collect_tags(
            tree,
            Ghost(root),
            Ghost(edges),
            node * 2 + 1,
            mid,
            hi,
            combined,
            Ghost(all),
            out,
        );
        proof {
            let top = self.sets@[node as int];
            assert forall|p: int|
                #![trigger tree.at_pos@[p]]
                lo <= p < hi implies summarizes(
                *tree,
                edges,
                out@[tree.at_pos@[p] as int],
                above.union(at_place(self.sets@, node as int, lo as int, hi as int, p)),
            ) by {
                let v = tree.at_pos@[p] as int;
                assert(tree.tin@[v] == p);
                if p < mid {
                    let inner = at_place(self.sets@, 2 * node as int, lo as int, mid as int, p);
                    assert(summarizes(*tree, edges, left[tree.at_pos@[p] as int], all.union(inner)));
                    assert(out@[v] == left[v]);
                    assert(above.union(top.union(inner)) =~= all.union(inner));
                } else {
                    let inner = at_place(self.sets@, 2 * node as int + 1, mid as int, hi as int, p);
                    assert(summarizes(*tree, edges, out@[tree.at_pos@[p] as int], all.union(inner)));
                    assert(above.union(top.union(inner)) =~= all.union(inner));
                }
            }
            assert forall|v: int|
                0 <= v < tree.count() && !(lo <= tree.tin@[v] < hi) implies #[trigger] out@[v]
                == old(out)@[v] by {
                assert(left[v] == old(out)@[v]);
            }
        }
    }
}

/// The edges that leave the subtree of `v`.
pub open spec fn leaving_subtree(tree: TreeIndex, edges: Seq<IEdge>, v: int) -> Set<int> {
    Set::new(
        |j: int|
            0 <= j < edges.len() && tree.above(v, edges[j].from as int) && !tree.above(
                v,
                edges[j].to as int,
            ),
    )
}

/// Summarizes, for every node, the edges that leave its subtree.
#[verifier::rlimit(40)]
pub(crate) fn summarize_subtrees(tree: &TreeIndex, root: usize, edges: &Vec<IEdge>) -> (summaries: Vec<
    Tag,
>)
    requires
        tree.wf(root as int),
        edges_in_tree(*tree, edges@),
        tree.count() < usize::MAX / 16,
    ensures
        summaries@.len() == tree.count(),
        forall|v: int|
            0 <= v < tree.count() ==> summarizes(
                *tree,
                edges@,
                #[trigger] summaries@[v],
                leaving_subtree(*tree, edges@, v),
            ),
{
    let n: usize = tree.parent.len();
    let ghost r = root as int;
    let empty = Tag { target: Target::Nowhere, source_lca: None, lower_depth: 0 };
    let len: usize = n * 4 + 4;
    let mut tags: Vec<Tag> = Vec::new();
    for i in 0..len
        invariant
            tags@.len() == i,
            forall|k: int| 0 <= k < i ==> #[trigger] tags@[k] == empty,
    {
        tags.push(empty);
    }
    let mut heap = TagTree { tags, sets: Ghost(Map::total(|k: int| Set::empty())) };
    proof {
        assert(n >= 1);
        lemma_room(n as int, n as int);
        assert(has_room(1, n as int, len as int));
        assert forall|v: int| 0 <= v < n implies #[trigger] heap.at(n as int, tree.tin@[v] as int)
            == entered_by(*tree, edges@, v, 0) by {
            lemma_all_empty(heap.sets@, 1, 0, n as int, tree.tin@[v] as int);
            assert(entered_by(*tree, edges@, v, 0) =~= Set::empty());
        }
    }
    for j in 0..edges.len()
        invariant
            tree.wf(r),
            r == root,
            n == tree.count(),
            n < usize::MAX / 16,
            edges_in_tree(*tree, edges@),
            heap.wf(*tree, edges@),
            heap.tags@.len() == n * 4 + 4,
            has_room(1, n as int, heap.tags@.len() as int),
            forall|v: int|
                0 <= v < n ==> #[trigger] heap.at(n as int, tree.tin@[v] as int) == entered_by(
                    *tree,
                    edges@,
                    v,
                    j as int,
                ),
    {
        let edge = edges[j];
        assert(edges@[j as int].from < n && edges@[j as int].to < n);
        let (u, w) = (edge.from, edge.to);
        let a: usize = tree.lca(Ghost(r), u, w);
        proof {
            lemma_lca_of(*tree, r, u as int, w as int, a as int);
            assert forall|v: int| tree.above(v, u as int) implies (tree.above(v, a as int)
                <==> tree.above(v, w as int)) by {
                if tree.above(v, a as int) {
                    lemma_above_transitive(tree.parent@, tree.depth@, v, a as int, w as int);
                }
            }
        }
        if a != u {
            proof {
                crate::triskel::tree_index::lemma_depth_bound(tree.parent@, r, tree.depth@, a as int);
            }
            let lower_depth: usize = if a == w {
                tree.depth[a]
            } else {
                tree.depth[a] + 1
            };
            let tag = Tag { target: Target::One(w), source_lca: Some(u), lower_depth };
            proof {
                let set = just(j as int);
                assert(set.contains(j as int));
                assert forall|k: int| #[trigger] set.contains(k) implies k == j by {}
                assert(tree.above(u as int, u as int));
                assert(summarizes(*tree, edges@, tag, set));
            }
            let ghost before = heap;
            heap.update_up_exclusive(
                tree,
                Ghost(r),
                Ghost(edges@),
                u,
                a,
                tag,
                n,
                Ghost(j as int),
            );
            proof {
                assert forall|v: int| 0 <= v < n implies #[trigger] heap.at(
                    n as int,
                    tree.tin@[v] as int,
                ) == entered_by(*tree, edges@, v, j + 1) by {
                    assert(before.at(n as int, tree.tin@[v] as int) == entered_by(
                        *tree,
                        edges@,
                        v,
                        j as int,
                    ));
                    if tree.above(v, u as int) && !tree.above(v, a as int) {
                        assert(entered_by(*tree, edges@, v, j + 1) =~= entered_by(
                            *tree,
                            edges@,
                            v,
                            j as int,
                        ).insert(j as int));
                    } else {
                        assert(entered_by(*tree, edges@, v, j + 1) =~= entered_by(
                            *tree,
                            edges@,
                            v,
                            j as int,
                        ));
                    }
                }
            }
        } else {
            proof {
                assert forall|v: int| 0 <= v < n implies #[trigger] heap.at(
                    n as int,
                    tree.tin@[v] as int,
                ) == entered_by(*tree, edges@, v, j + 1) by {
                    assert(entered_by(*tree, edges@, v, j + 1) =~= entered_by(
                        *tree,
                        edges@,
                        v,
                        j as int,
                    ));
                }
            }
        }
    }
    let mut summaries: Vec<Tag> = Vec::new();
    for i in 0..n
        invariant
            summaries@.len() == i,
    {
        summaries.push(empty);
    }
    let ghost none: Set<int> = Set::empty();
    heap.collect_tags(
        tree,
        Ghost(r),
        Ghost(edges@),
        1,
        0,
        n,
        empty,
        Ghost(none),
        &mut summaries,
    );
    proof {
        assert forall|v: int| 0 <= v < tree.count() implies summarizes(
            *tree,
            edges@,
            #[trigger] summaries@[v],
            leaving_subtree(*tree, edges@, v),
        ) by {
            let p = tree.tin@[v] as int;
            assert(tree.tin@[v] < tree.tout@[v]);
            assert(tree.at_pos@[p] == v);
            assert(heap.at(n as int, tree.tin@[v] as int) == entered_by(
                *tree,
                edges@,
                v,
                edges@.len() as int,
            ));
            assert(none.union(at_place(heap.sets@, 1, 0, n as int, p)) =~= leaving_subtree(
                *tree,
                edges@,
                v,
            ));
        }
    }
    summaries
}

/// Those of the first `k` edges that leave the subtree of `v`.
spec fn entered_by(tree: TreeIndex, edges: Seq<IEdge>, v: int, k: int) -> Set<int> {
    Set::new(
        |j: int|
            0 <= j < k && tree.above(v, edges[j].from as int) && !tree.above(
                v,
                edges[j].to as int,
            ),
    )
}

proof fn lemma_all_empty(sets: Map<int, Set<int>>, node: int, lo: int, hi: int, p: int)
    requires
        forall|k: int| #[trigger] sets[k] == Set::<int>::empty(),
    ensures
        at_place(sets, node, lo, hi, p) == Set::<int>::empty(),
    decreases hi - lo,
{
    if hi - lo > 1 {
        let mid = (lo + hi) / 2;
        if p < mid {
            lemma_all_empty(sets, 2 * node, lo, mid, p);
        } else {
            lemma_all_empty(sets, 2 * node + 1, mid, hi, p);
        }
        assert(at_place(sets, node, lo, hi, p) =~= Set::<int>::empty());
    }
}

} // verus!
