//! The Lengauer–Tarjan algorithm.
use crate::fx;
use crate::graph::analysis::numbering::{
    ancestor, child_toward, is_depth_first, is_preorder, lemma_ancestor_bounds,
    lemma_ancestor_transitive, lemma_ancestors_ordered, lemma_child_toward,
    lemma_descendants_consecutive, lemma_root_is_ancestor, lemma_tree_walk,
};
use crate::graph::analysis::semidominator::{
    is_semidominator, is_tree_idom, lemma_idom_is_inherited, lemma_idom_is_semidominator,
    lemma_reaches_above_via, lemma_semidominator_is_ancestor, lemma_semidominator_step,
    lemma_step_above, reaches_above,
};
use crate::graph::walk::{
    dominates, immediately_dominates, is_walk, joined, lemma_join, lemma_on_walk_reached,
    on_every_walk, reaches, step_at, strictly_dominates, walk_between,
};
use crate::graph::{flow, Cfg};
use crate::registry::{lemma_id_injective, Identifier};
use rustc_hash::FxHashMap;
use vstd::prelude::*;

verus! {

/// A depth-first numbering of the nodes that can be reached from a root.
///
/// Numbers begin at 1; entry 0 of each list is a filler.
pub(crate) struct Numbering<C: Cfg> {
    pub(crate) number: FxHashMap<usize, usize>,
    pub(crate) vertex: Vec<C::NodeId>,
    pub(crate) parent: Vec<usize>,
    pub(crate) pred: Vec<Vec<usize>>,
}

/// What is true of an ancestor stays true as nodes are added.
pub(crate) proof fn lemma_ancestor_prefix(p: Seq<usize>, q: Seq<usize>, a: int, v: int)
    requires
        v < p.len() <= q.len(),
        forall|i: int| 0 <= i < p.len() ==> p[i] == q[i],
    ensures
        ancestor(p, a, v) == ancestor(q, a, v),
    decreases v,
{
    if a != v && 2 <= v && p[v] < v {
        lemma_ancestor_prefix(p, q, a, p[v] as int);
    }
}

impl<C: Cfg> Numbering<C> {
    /// The node `s` has been given the number `k`.
    pub(crate) open spec fn has_number(&self, s: C::NodeId, k: int) -> bool {
        self.number@.contains_key(s.spec_index()) && self.number@[s.spec_index()] == k
    }

    pub(crate) open spec fn is_numbered(&self, s: C::NodeId) -> bool {
        self.number@.contains_key(s.spec_index())
    }

    /// There is an edge between the nodes with the numbers `a` and `b`.
    pub(crate) open spec fn edge(&self, graph: &C, a: int, b: int) -> bool {
        graph.spec_successors(self.vertex@[a]).contains(self.vertex@[b])
    }

    pub(crate) open spec fn wf(&self, graph: &C) -> bool {
        let len = self.vertex@.len();
        &&& 1 <= len
        &&& self.parent@.len() == len
        &&& self.pred@.len() == len
        &&& forall|i: int| 1 <= i < len ==> self.has_number(#[trigger] self.vertex@[i], i)
        &&& forall|s: C::NodeId| #[trigger]
            self.is_numbered(s) ==> 1 <= self.number@[s.spec_index()] < len
                && self.vertex@[self.number@[s.spec_index()] as int] == s
        &&& is_preorder(self.parent@)
        &&& forall|i: int| 2 <= i < len ==> self.edge(graph, #[trigger] self.parent@[i] as int, i)
        &&& forall|w: int, j: int|
            1 <= w < len && 0 <= j < self.pred@[w]@.len() ==> 1 <= (#[trigger] self.pred@[w]@[j])
                < len && self.edge(graph, self.pred@[w]@[j] as int, w)
    }

    /// All the edges that leave the node with the number `v` have been followed.
    pub(crate) open spec fn finished(&self, graph: &C, v: int) -> bool {
        forall|s: C::NodeId| #[trigger]
            graph.spec_successors(self.vertex@[v]).contains(s) ==> self.is_numbered(s)
                && self.pred@[self.number@[s.spec_index()] as int]@.contains(v as usize) && (v
                < self.number@[s.spec_index()] ==> ancestor(
                self.parent@,
                v,
                self.number@[s.spec_index()] as int,
            ))
    }

    /// Nodes have been added to `before`, and predecessors noted.
    pub(crate) open spec fn extends(&self, before: &Self) -> bool {
        let len = before.vertex@.len();
        &&& len <= self.vertex@.len()
        &&& forall|i: int| 0 <= i < len ==> #[trigger] self.vertex@[i] == before.vertex@[i]
        &&& forall|i: int| 0 <= i < len ==> #[trigger] self.parent@[i] == before.parent@[i]
        &&& forall|i: int, v: usize|
            0 <= i < len && before.pred@[i]@.contains(v) ==> #[trigger] self.pred@[i]@.contains(v)
        &&& forall|s: C::NodeId| #[trigger]
            before.is_numbered(s) ==> self.is_numbered(s) && self.number@[s.spec_index()]
                == before.number@[s.spec_index()]
    }

    proof fn lemma_finished_extends(&self, before: &Self, graph: &C, v: int)
        requires
            before.wf(graph),
            self.wf(graph),
            self.extends(before),
            before.finished(graph, v),
            1 <= v < before.vertex@.len(),
        ensures
            self.finished(graph, v),
    {
        assert forall|s: C::NodeId| #[trigger]
            graph.spec_successors(self.vertex@[v]).contains(s) implies self.is_numbered(s)
            && self.pred@[self.number@[s.spec_index()] as int]@.contains(v as usize) && (v
            < self.number@[s.spec_index()] ==> ancestor(
            self.parent@,
            v,
            self.number@[s.spec_index()] as int,
        )) by {
            assert(self.vertex@[v] == before.vertex@[v]);
            assert(before.is_numbered(s));
            let k = before.number@[s.spec_index()] as int;
            lemma_ancestor_prefix(before.parent@, self.parent@, v, k);
            assert(self.pred@[k]@.contains(v as usize));
        }
    }

    /// Gives `node` the next number.
    fn push_vertex(&mut self, Ghost(graph): Ghost<&C>, node: C::NodeId, parent: usize) -> (idx: usize)
        requires
            old(self).wf(graph),
            !old(self).is_numbered(node),
            if old(self).vertex@.len() == 1 {
                parent == 0
            } else {
                &&& 1 <= parent < old(self).vertex@.len()
                &&& graph.spec_successors(old(self).vertex@[parent as int]).contains(node)
                &&& ancestor(old(self).parent@, parent as int, old(self).vertex@.len() - 1)
            },
        ensures
            final(self).wf(graph),
            final(self).extends(old(self)),
            idx == old(self).vertex@.len(),
            final(self).vertex@ == old(self).vertex@.push(node),
            final(self).parent@ == old(self).parent@.push(parent),
            final(self).has_number(node, idx as int),
    {
        let idx: usize = self.vertex.len();
        fx::map_insert(&mut self.number, node.to_usize(), idx);
        self.vertex.push(node);
        self.parent.push(parent);
        self.pred.push(Vec::new());
        proof {
            let before = *old(self);
            assert forall|s: C::NodeId| #[trigger] self.is_numbered(s) implies 1
                <= self.number@[s.spec_index()] < self.vertex@.len()
                && self.vertex@[self.number@[s.spec_index()] as int] == s by {
                lemma_id_injective(s, node);
                if s != node {
                    assert(before.is_numbered(s));
                }
            }
            assert forall|i: int| 1 <= i < self.vertex@.len() implies self.has_number(
                #[trigger] self.vertex@[i],
                i,
            ) by {
                if i < idx {
                    assert(before.has_number(before.vertex@[i], i));
                    lemma_id_injective(before.vertex@[i], node);
                }
            }
            assert forall|v: int| 2 <= v < self.parent@.len() implies 1 <= (
            #[trigger] self.parent@[v]) < v && ancestor(
                self.parent@,
                self.parent@[v] as int,
                v - 1,
            ) by {
                if v < idx {
                    assert(before.parent@[v] == self.parent@[v]);
                }
                lemma_ancestor_prefix(before.parent@, self.parent@, self.parent@[v] as int, v - 1);
            }
            assert forall|i: int| 2 <= i < self.vertex@.len() implies self.edge(
                graph,
                #[trigger] self.parent@[i] as int,
                i,
            ) by {
                if i < idx {
                    assert(before.edge(graph, before.parent@[i] as int, i));
                }
            }
            assert forall|w: int, j: int|
                1 <= w < self.vertex@.len() && 0 <= j < self.pred@[w]@.len() implies 1 <= (
            #[trigger] self.pred@[w]@[j]) < self.vertex@.len() && self.edge(
                graph,
                self.pred@[w]@[j] as int,
                w,
            ) by {
                assert(w < idx);
                assert(before.pred@[w]@[j] == self.pred@[w]@[j]);
                assert(before.edge(graph, before.pred@[w]@[j] as int, w));
            }
            assert forall|s: C::NodeId| #[trigger] before.is_numbered(s) implies self.is_numbered(s)
                && self.number@[s.spec_index()] == before.number@[s.spec_index()] by {
                lemma_id_injective(s, node);
            }
        }
        idx
    }

    /// Notes that the node numbered `v` is a predecessor of the node numbered `w`.
    fn push_pred(&mut self, Ghost(graph): Ghost<&C>, v: usize, w: usize)
        requires
            old(self).wf(graph),
            1 <= v < old(self).vertex@.len(),
            1 <= w < old(self).vertex@.len(),
            old(self).edge(graph, v as int, w as int),
        ensures
            final(self).wf(graph),
            final(self).extends(old(self)),
            final(self).vertex@ == old(self).vertex@,
            final(self).parent@ == old(self).parent@,
            final(self).number@ == old(self).number@,
            final(self).pred@[w as int]@.contains(v),
    {
        let ghost before = *self;
        self.pred[w].push(v);
        proof {
            let list = before.pred@[w as int]@;
            assert(self.pred@[w as int]@ == list.push(v));
            assert(list.push(v)[list.len() as int] == v);
            assert forall|i: int, x: usize|
                0 <= i < before.vertex@.len() && before.pred@[i]@.contains(x) implies
                #[trigger] self.pred@[i]@.contains(x) by {
                let k = before.pred@[i]@.index_of(x);
                assert(self.pred@[i]@[k] == x);
            }
            assert forall|i: int, j: int|
                1 <= i < self.vertex@.len() && 0 <= j < self.pred@[i]@.len() implies 1 <= (
            #[trigger] self.pred@[i]@[j]) < self.vertex@.len() && self.edge(
                graph,
                self.pred@[i]@[j] as int,
                i,
            ) by {
                if i == w && j == list.len() {
                } else {
                    assert(before.pred@[i]@[j] == self.pred@[i]@[j]);
                    assert(before.edge(graph, before.pred@[i]@[j] as int, i));
                }
            }
            assert forall|i: int| 1 <= i < self.vertex@.len() implies self.has_number(
                #[trigger] self.vertex@[i],
                i,
            ) by {
                assert(before.has_number(before.vertex@[i], i));
            }
            assert forall|i: int| 2 <= i < self.vertex@.len() implies self.edge(
                graph,
                #[trigger] self.parent@[i] as int,
                i,
            ) by {
                assert(before.edge(graph, before.parent@[i] as int, i));
            }
            assert forall|s: C::NodeId| #[trigger] self.is_numbered(s) implies 1
                <= self.number@[s.spec_index()] < self.vertex@.len()
                && self.vertex@[self.number@[s.spec_index()] as int] == s by {
                assert(before.is_numbered(s));
            }
        }
    }

    /// Numbers `node` and all that can be reached from it and has no number yet.
    #[verifier::rlimit(40)]
    fn dfs(&mut self, graph: &C, node: C::NodeId, parent: usize)
        requires
            graph.is_valid(),
            old(self).wf(graph),
            !old(self).is_numbered(node),
            if old(self).vertex@.len() == 1 {
                parent == 0
            } else {
                &&& 1 <= parent < old(self).vertex@.len()
                &&& graph.spec_successors(old(self).vertex@[parent as int]).contains(node)
                &&& ancestor(old(self).parent@, parent as int, old(self).vertex@.len() - 1)
            },
        ensures
            final(self).wf(graph),
            final(self).extends(old(self)),
            final(self).has_number(node, old(self).vertex@.len() as int),
            old(self).vertex@.len() < final(self).vertex@.len(),
            final(self).parent@[old(self).vertex@.len() as int] == parent,
            forall|i: int|
                old(self).vertex@.len() <= i < final(self).vertex@.len() ==> #[trigger] ancestor(
                    final(self).parent@,
                    old(self).vertex@.len() as int,
                    i,
                ),
            forall|i: int|
                old(self).vertex@.len() <= i < final(self).vertex@.len() ==> #[trigger] final(self).finished(graph, i),
        decreases usize::MAX - old(self).vertex@.len(),
    {
        let ghost before = *self;
        let idx = self.push_vertex(Ghost(graph), node, parent);
        let targets = graph.successors(node);
        let reached: usize = self.vertex.len();
        for j in 0..targets.len()
            invariant
                graph.is_valid(),
                before == *old(self),
                before.wf(graph),
                self.wf(graph),
                self.extends(&before),
                idx == before.vertex@.len() < self.vertex@.len(),
                self.vertex@.len() <= usize::MAX,
                self.vertex@[idx as int] == node,
                self.parent@[idx as int] == parent,
                self.has_number(node, idx as int),
                targets@ == graph.spec_successors(node),
                forall|i: int|
                    idx <= i < self.vertex@.len() ==> #[trigger] ancestor(
                        self.parent@,
                        idx as int,
                        i,
                    ),
                forall|i: int|
                    idx < i < self.vertex@.len() ==> #[trigger] self.finished(graph, i),
                forall|k: int|
                    0 <= k < j ==> self.is_numbered(#[trigger] targets@[k])
                        && self.pred@[self.number@[targets@[k].spec_index()] as int]@.contains(idx),
        {
            let succ = targets[j];
            let ghost mid = *self;
            let known = fx::map_get(&self.number, succ.to_usize()).is_some();
            if !known {
                proof {
                    assert(targets@.contains(succ));
                }
                self.dfs(graph, succ, idx);
                proof {
                    let first = mid.vertex@.len() as int;
                    assert(self.vertex@[idx as int] == mid.vertex@[idx as int]);
                    assert(self.parent@[idx as int] == mid.parent@[idx as int]);
                    assert forall|i: int| idx <= i < self.vertex@.len() implies #[trigger] ancestor(
                        self.parent@,
                        idx as int,
                        i,
                    ) by {
                        if i < first {
                            assert(ancestor(mid.parent@, idx as int, i));
                            lemma_ancestor_prefix(mid.parent@, self.parent@, idx as int, i);
                        } else {
                            assert(ancestor(self.parent@, first, i));
                            assert(ancestor(self.parent@, idx as int, idx as int));
                            assert(ancestor(self.parent@, idx as int, first));
                            lemma_ancestor_transitive(self.parent@, idx as int, first, i);
                        }
                    }
                    assert forall|i: int| idx < i < self.vertex@.len() implies
                        #[trigger] self.finished(graph, i) by {
                        if i < first {
                            assert(mid.finished(graph, i));
                            self.lemma_finished_extends(&mid, graph, i);
                        }
                    }
                    assert forall|k: int| 0 <= k < j implies self.is_numbered(
                        #[trigger] targets@[k],
                    ) && self.pred@[self.number@[targets@[k].spec_index()] as int]@.contains(
                        idx,
                    ) by {
                        assert(mid.is_numbered(targets@[k]));
                        assert(self.pred@[mid.number@[targets@[k].spec_index()] as int]@.contains(
                            idx,
                        ));
                    }
                    assert(self.extends(&before)) by {
                        lemma_extends_transitive(self, &mid, &before);
                    }
                    assert(mid.is_numbered(node));
                }
            }
            let ghost mid = *self;
            let succ_idx = *fx::map_get(&self.number, succ.to_usize()).unwrap();
            proof {
                assert(self.is_numbered(succ));
                assert(targets@.contains(succ));
            }
            self.push_pred(Ghost(graph), idx, succ_idx);
            proof {
                assert forall|i: int| idx < i < self.vertex@.len() implies #[trigger] self.finished(
                    graph,
                    i,
                ) by {
                    assert(mid.finished(graph, i));
                    self.lemma_finished_extends(&mid, graph, i);
                }
                assert forall|k: int| 0 <= k < j + 1 implies self.is_numbered(
                    #[trigger] targets@[k],
                ) && self.pred@[self.number@[targets@[k].spec_index()] as int]@.contains(idx) by {
                    assert(mid.is_numbered(targets@[k]));
                    if k < j {
                        assert(self.pred@[mid.number@[targets@[k].spec_index()] as int]@.contains(
                            idx,
                        ));
                    }
                }
                lemma_extends_transitive(self, &mid, &before);
            }
            let now: usize = self.vertex.len();
        }
        proof {
            assert forall|s: C::NodeId| #[trigger]
                graph.spec_successors(self.vertex@[idx as int]).contains(s) implies self.is_numbered(
                s,
            ) && self.pred@[self.number@[s.spec_index()] as int]@.contains(idx) && (idx
                < self.number@[s.spec_index()] ==> ancestor(
                self.parent@,
                idx as int,
                self.number@[s.spec_index()] as int,
            )) by {
                let k = targets@.index_of(s);
                assert(self.is_numbered(targets@[k]));
            }
            assert(self.finished(graph, idx as int));
        }
    }
}

proof fn lemma_extends_transitive<C: Cfg>(c: &Numbering<C>, b: &Numbering<C>, a: &Numbering<C>)
    requires
        c.extends(b),
        b.extends(a),
    ensures
        c.extends(a),
{
    let len = a.vertex@.len();
    assert forall|i: int| 0 <= i < len implies #[trigger] c.vertex@[i] == a.vertex@[i] by {
        assert(b.vertex@[i] == a.vertex@[i]);
    }
    assert forall|i: int| 0 <= i < len implies #[trigger] c.parent@[i] == a.parent@[i] by {
        assert(b.parent@[i] == a.parent@[i]);
    }
    assert forall|i: int, v: usize|
        0 <= i < len && a.pred@[i]@.contains(v) implies #[trigger] c.pred@[i]@.contains(v) by {
        assert(b.pred@[i]@.contains(v));
    }
    assert forall|s: C::NodeId| #[trigger] a.is_numbered(s) implies c.is_numbered(s)
        && c.number@[s.spec_index()] == a.number@[s.spec_index()] by {
        assert(b.is_numbered(s));
    }
}

/// The forest of linked nodes, with compressed paths.
///
/// `semi[v]` is `v` until the semidominator of `v` is known. A linked node `v`
/// points to one of its ancestors, and `label[v]` is a node below that ancestor,
/// on the way to `v`, whose semidominator is least there.
struct Forest {
    semi: Vec<usize>,
    ancestor: Vec<usize>,
    label: Vec<usize>,
}

impl Forest {
    /// Exactly the nodes from `first` on are linked.
    spec fn wf(&self, parent: Seq<usize>, first: int) -> bool {
        &&& self.semi@.len() == parent.len()
        &&& self.ancestor@.len() == parent.len()
        &&& self.label@.len() == parent.len()
        &&& forall|v: int|
            #![trigger self.ancestor@[v]]
            #![trigger self.label@[v]]
            1 <= v < parent.len() && v < first ==> self.ancestor@[v] == 0 && self.label@[v] == v
        &&& forall|v: int|
            first <= v < parent.len() ==> #[trigger] self.linked_ok(parent, first, v)
    }

    spec fn linked_ok(&self, parent: Seq<usize>, first: int, v: int) -> bool {
        let a = self.ancestor@[v] as int;
        let u = self.label@[v] as int;
        &&& 1 <= a < v
        &&& ancestor(parent, a, v)
        &&& a < u <= v
        &&& ancestor(parent, u, v)
        &&& forall|x: int|
            a < x && #[trigger] ancestor(parent, x, v) ==> first <= x && self.semi@[u]
                <= self.semi@[x]
    }

    /// Lets `v` and the nodes it points through all point to the end of the path.
    fn compress(&mut self, Ghost(parent): Ghost<Seq<usize>>, Ghost(first): Ghost<int>, v: usize)
        requires
            is_preorder(parent),
            old(self).wf(parent, first),
            1 <= first,
            first <= v < parent.len(),
        ensures
            final(self).wf(parent, first),
            final(self).semi@ == old(self).semi@,
            final(self).ancestor@[v as int] < first,
            forall|x: int|
                #![trigger final(self).label@[x]]
                #![trigger final(self).ancestor@[x]]
                v < x < parent.len() ==> final(self).ancestor@[x] == old(self).ancestor@[x]
                    && final(self).label@[x] == old(self).label@[x],
        decreases v,
    {
        let ghost before = *self;
        assert(self.linked_ok(parent, first, v as int));
        let a: usize = self.ancestor[v];
        if a != 0 {
            let aa: usize = self.ancestor[a];
            proof {
                if first <= a {
                    assert(self.linked_ok(parent, first, a as int));
                }
            }
            if aa != 0 {
                assert(a >= first);
                self.compress(Ghost(parent), Ghost(first), a);
                let ghost mid = *self;
                assert(self.linked_ok(parent, first, a as int));
                assert(self.linked_ok(parent, first, v as int));
                if self.semi[self.label[a]] < self.semi[self.label[v]] {
                    self.label[v] = self.label[a];
                }
                self.ancestor[v] = self.ancestor[a];
                proof {
                    let top = mid.ancestor@[a as int] as int;
                    lemma_ancestor_transitive(parent, top, a as int, v as int);
                    lemma_ancestor_transitive(
                        parent,
                        mid.label@[a as int] as int,
                        a as int,
                        v as int,
                    );
                    let u = self.label@[v as int] as int;
                    assert forall|x: int| top < x && #[trigger] ancestor(parent, x, v as int) implies
                        first <= x && self.semi@[u] <= self.semi@[x] by {
                        if x <= a {
                            lemma_ancestors_ordered(parent, x, a as int, v as int);
                        }
                    }
                    assert forall|x: int| v < x < parent.len() implies self.ancestor@[x]
                        == before.ancestor@[x] && #[trigger] self.label@[x] == before.label@[x] by {
                        assert(mid.label@[x] == before.label@[x]);
                    }
                    assert forall|x: int| first <= x < parent.len() implies
                        #[trigger] self.linked_ok(parent, first, x) by {
                        if x != v {
                            assert(mid.linked_ok(parent, first, x));
                        }
                    }
                }
            }
        }
    }

    /// A linked node on the way to `v`, itself included, whose semidominator is least.
    fn eval(&mut self, Ghost(parent): Ghost<Seq<usize>>, Ghost(first): Ghost<int>, v: usize) -> (u: usize)
        requires
            is_preorder(parent),
            old(self).wf(parent, first),
            1 <= first,
            1 <= v < parent.len(),
        ensures
            final(self).wf(parent, first),
            final(self).semi@ == old(self).semi@,
            v < first ==> u == v,
            first <= v ==> {
                &&& first <= u <= v
                &&& ancestor(parent, u as int, v as int)
                &&& forall|x: int|
                    first <= x && #[trigger] ancestor(parent, x, v as int)
                        ==> final(self).semi@[u as int] <= final(self).semi@[x]
            },
    {
        if self.ancestor[v] == 0 {
            proof {
                if first <= v {
                    assert(self.linked_ok(parent, first, v as int));
                }
                assert(self.label@[v as int] == v);
            }
            return self.label[v];
        }
        proof {
            if v < first {
                assert(self.label@[v as int] == v);
            }
        }
        self.compress(Ghost(parent), Ghost(first), v);
        assert(self.linked_ok(parent, first, v as int));
        self.label[v]
    }

    /// Links `child`, the highest node that is not yet linked, to its parent.
    fn link(&mut self, Ghost(parent): Ghost<Seq<usize>>, p: usize, child: usize)
        requires
            is_preorder(parent),
            2 <= child < parent.len(),
            p == parent[child as int],
            old(self).wf(parent, child + 1),
        ensures
            final(self).wf(parent, child as int),
            final(self).semi@ == old(self).semi@,
    {
        let ghost before = *self;
        assert(self.label@[child as int] == child);
        self.ancestor[child] = p;
        proof {
            let c = child as int;
            assert(ancestor(parent, p as int, p as int));
            assert(ancestor(parent, p as int, c));
            assert forall|x: int| p < x && #[trigger] ancestor(parent, x, c) implies c <= x by {
                if x != c {
                    lemma_ancestor_bounds(parent, x, p as int);
                }
            }
            assert forall|x: int| c <= x < parent.len() implies #[trigger] self.linked_ok(
                parent,
                c,
                x,
            ) by {
                if x != c {
                    assert(before.linked_ok(parent, c + 1, x));
                } else {
                    assert forall|y: int| p < y && #[trigger] ancestor(parent, y, c) implies c <= y
                        && self.semi@[c] <= self.semi@[y] by {
                        lemma_ancestor_bounds(parent, y, c);
                    }
                }
            }
        }
    }
}

impl<C: Cfg> Numbering<C> {
    /// The edges between numbered nodes, as a relation on their numbers.
    pub(crate) open spec fn steps(&self, graph: &C) -> spec_fn(int, int) -> bool {
        |x: int, y: int|
            1 <= x < self.vertex@.len() && 1 <= y < self.vertex@.len() && self.edge(graph, x, y)
    }

    /// The numbering holds `root` as number 1, and the successors of all that it holds.
    pub(crate) open spec fn is_complete(&self, graph: &C, root: C::NodeId) -> bool {
        &&& self.wf(graph)
        &&& self.vertex@.len() >= 2
        &&& self.vertex@[1] == root
        &&& forall|i: int| 1 <= i < self.vertex@.len() ==> #[trigger] self.finished(graph, i)
    }

    pub(crate) proof fn lemma_depth_first(&self, graph: &C, root: C::NodeId)
        requires
            self.is_complete(graph, root),
        ensures
            is_depth_first(self.steps(graph), self.parent@),
            forall|v: int, w: int| #[trigger]
                self.steps(graph)(v, w) ==> self.pred@[w]@.contains(v as usize),
    {
        let e = self.steps(graph);
        assert forall|v: int| 2 <= v < self.parent@.len() implies e(
            #[trigger] self.parent@[v] as int,
            v,
        ) by {
            assert(self.edge(graph, self.parent@[v] as int, v));
        }
        assert forall|x: int, y: int| #[trigger] e(x, y) implies 1 <= x < self.parent@.len() && 1
            <= y < self.parent@.len() && (x < y ==> ancestor(self.parent@, x, y))
            && self.pred@[y]@.contains(x as usize) by {
            assert(self.finished(graph, x));
            let s = self.vertex@[y];
            assert(graph.spec_successors(self.vertex@[x]).contains(s));
            assert(self.has_number(self.vertex@[y], y));
        }
    }
}

/// Numbers the nodes that can be reached from `root`, depth-first.
pub(crate) fn number_depth_first<C: Cfg>(graph: &C, root: C::NodeId) -> (numbering: Numbering<C>)
    requires
        graph.is_valid(),
    ensures
        numbering.is_complete(graph, root),
{
    let number: FxHashMap<usize, usize> = fx::map_new();
    let mut numbering = Numbering { number, vertex: vec![root], parent: vec![0], pred: vec![
            Vec::new(),
        ] };
    assert(!numbering.is_numbered(root));
    numbering.dfs(graph, root, 0);
    assert(numbering.is_numbered(root));
    numbering
}

/// What is known of the immediate dominator of `v` once the walk up the numbers is done
/// with it: it is the semidominator, or that of a lower node `idom[v]`.
spec fn decided(
    e: spec_fn(int, int) -> bool,
    parent: Seq<usize>,
    semi: Seq<usize>,
    idom: Seq<usize>,
    v: int,
) -> bool {
    let s = semi[v] as int;
    let u = idom[v] as int;
    if u == s {
        is_tree_idom(e, parent, s, v)
    } else {
        &&& s < u < v
        &&& ancestor(parent, u, v)
        &&& semi[u] < s
        &&& forall|z: int| s < z && #[trigger] ancestor(parent, z, v) ==> semi[u] <= semi[z]
    }
}

/// The nodes above `w` are done: their semidominators are known, and each is decided
/// or waits in the bucket of its semidominator for a child of that node.
spec fn done_above(
    e: spec_fn(int, int) -> bool,
    parent: Seq<usize>,
    semi: Seq<usize>,
    idom: Seq<usize>,
    bucket: Seq<Vec<usize>>,
    w: int,
) -> bool {
    &&& semi.len() == parent.len()
    &&& idom.len() == parent.len()
    &&& bucket.len() == parent.len()
    &&& forall|v: int| 1 <= v <= w ==> #[trigger] semi[v] == v
    &&& forall|v: int| w < v < parent.len() ==> is_semidominator(e, #[trigger] semi[v] as int, v)
    &&& forall|b: int, j: int|
        0 <= b < bucket.len() && 0 <= j < bucket[b]@.len() ==> w < (#[trigger] bucket[b]@[j])
            < parent.len() && semi[bucket[b]@[j] as int] == b
    &&& forall|v: int|
        w < v < parent.len() ==> #[trigger] waits_or_decided(e, parent, semi, idom, bucket, w, v)
}

spec fn waits_or_decided(
    e: spec_fn(int, int) -> bool,
    parent: Seq<usize>,
    semi: Seq<usize>,
    idom: Seq<usize>,
    bucket: Seq<Vec<usize>>,
    w: int,
    v: int,
) -> bool {
    if child_toward(parent, semi[v] as int, v) <= w {
        bucket[semi[v] as int]@.contains(v as usize)
    } else {
        decided(e, parent, semi, idom, v)
    }
}

/// A node that is not below `w` but hangs below the parent `p` of `w` hangs below a
/// later child of `p`.
proof fn lemma_later_child(parent: Seq<usize>, p: int, w: int, v: int)
    requires
        is_preorder(parent),
        2 <= w <= v < parent.len(),
        parent[w] == p,
        p < v,
        ancestor(parent, p, v),
    ensures
        w <= child_toward(parent, p, v),
{
    lemma_child_toward(parent, p, v);
    let c = child_toward(parent, p, v);
    if c < w {
        lemma_descendants_consecutive(parent, c, w, v);
        lemma_ancestor_bounds(parent, c, p);
    }
}

/// Below `p`, the way to `v` begins at the child of `p` toward `v`.
proof fn lemma_below(parent: Seq<usize>, p: int, x: int, v: int)
    requires
        is_preorder(parent),
        1 <= p < v < parent.len(),
        ancestor(parent, p, v),
        ancestor(parent, x, v),
        p < x,
    ensures
        child_toward(parent, p, v) <= x,
{
    lemma_child_toward(parent, p, v);
    let c = child_toward(parent, p, v);
    if x < c {
        lemma_ancestors_ordered(parent, x, c, v);
        lemma_ancestor_bounds(parent, x, p);
    }
}

/// The immediate dominators of the nodes of a numbering, by the Lengauer-Tarjan algorithm.
#[verifier::rlimit(40)]
pub(crate) fn run_lengauer_tarjan<C: Cfg>(
    Ghost(graph): Ghost<&C>,
    Ghost(root): Ghost<C::NodeId>,
    numbering: &Numbering<C>,
) -> (idom: Vec<usize>)
    requires
        numbering.is_complete(graph, root),
    ensures
        idom@.len() == numbering.vertex@.len(),
        forall|w: int|
            2 <= w < idom@.len() ==> is_tree_idom(
                numbering.steps(graph),
                numbering.parent@,
                #[trigger] idom@[w] as int,
                w,
            ),
{
    let len: usize = numbering.vertex.len();
    let ghost e = numbering.steps(graph);
    let ghost parent = numbering.parent@;
    proof {
        numbering.lemma_depth_first(graph, root);
    }
    let mut semi: Vec<usize> = Vec::new();
    let mut label: Vec<usize> = Vec::new();
    let mut above: Vec<usize> = Vec::new();
    let mut idom: Vec<usize> = Vec::new();
    let mut bucket: Vec<Vec<usize>> = Vec::new();
    for v in 0..len
        invariant
            semi@.len() == v,
            label@.len() == v,
            above@.len() == v,
            idom@.len() == v,
            bucket@.len() == v,
            forall|i: int| 0 <= i < v ==> #[trigger] semi@[i] == i,
            forall|i: int| 0 <= i < v ==> #[trigger] label@[i] == i,
            forall|i: int| 0 <= i < v ==> #[trigger] above@[i] == 0,
            forall|i: int| 0 <= i < v ==> (#[trigger] bucket@[i])@.len() == 0,
    {
        semi.push(v);
        label.push(v);
        above.push(0);
        idom.push(0);
        bucket.push(Vec::new());
    }
    let mut forest = Forest { semi, ancestor: above, label };
    let mut w: usize = len - 1;
    while w >= 2
        invariant
            1 <= w < len,
            numbering.wf(graph),
            len == parent.len(),
            len == numbering.vertex@.len(),
            parent == numbering.parent@,
            e == numbering.steps(graph),
            is_depth_first(e, parent),
            forall|x: int, y: int| #[trigger] e(x, y) ==> numbering.pred@[y]@.contains(x as usize),
            forest.wf(parent, w + 1),
            done_above(e, parent, forest.semi@, idom@, bucket@, w as int),
        decreases w,
    {
        let preds = &numbering.pred[w];
        let ghost semi0 = forest.semi@;
        for k in 0..preds.len()
            invariant
                2 <= w < len,
                len == parent.len(),
                len == numbering.vertex@.len(),
                numbering.wf(graph),
                e == numbering.steps(graph),
                is_depth_first(e, parent),
                preds@ == numbering.pred@[w as int]@,
                forest.wf(parent, w + 1),
                forest.semi@ == semi0.update(w as int, forest.semi@[w as int]),
                semi0.len() == len,
                forall|v: int| 1 <= v <= w ==> #[trigger] semi0[v] == v,
                forall|v: int|
                    w < v < parent.len() ==> is_semidominator(e, #[trigger] semi0[v] as int, v),
                forest.semi@[w as int] == w || reaches_above(
                    e,
                    forest.semi@[w as int] as int,
                    w as int,
                ),
                forall|j: int| #![trigger preds@[j]]
                    0 <= j < k && preds@[j] < w ==> forest.semi@[w as int] <= preds@[j],
                forall|j: int, u: int| #![trigger preds@[j], ancestor(parent, u, preds@[j] as int)]
                    0 <= j < k && w < u && ancestor(parent, u, preds@[j] as int)
                        ==> forest.semi@[w as int] <= semi0[u],
        {
            let v: usize = preds[k];
            proof {
                assert(numbering.pred@[w as int]@[k as int] == v);
                assert(numbering.edge(graph, v as int, w as int));
                assert(e(v as int, w as int));
            }
            let u: usize = forest.eval(Ghost(parent), Ghost(w + 1), v);
            proof {
                assert(semi0[u as int] == forest.semi@[u as int] || u == w);
                if v < w {
                    lemma_step_above(e, v as int, w as int);
                } else if v > w {
                    lemma_reaches_above_via(
                        e,
                        parent,
                        semi0[u as int] as int,
                        u as int,
                        v as int,
                        w as int,
                    );
                }
            }
            let ghost forest0 = forest;
            if forest.semi[u] < forest.semi[w] {
                let s: usize = forest.semi[u];
                forest.semi[w] = s;
            }
            proof {
                assert forall|x: int| w + 1 <= x < parent.len() implies #[trigger] forest.linked_ok(
                    parent,
                    w + 1,
                    x,
                ) by {
                    assert(forest0.linked_ok(parent, w + 1, x));
                    assert forall|y: int|
                        forest.ancestor@[x] < y && #[trigger] ancestor(parent, y, x) implies w + 1
                        <= y && forest.semi@[forest.label@[x] as int] <= forest.semi@[y] by {
                        lemma_ancestor_bounds(parent, y, x);
                    }
                }
                assert(forest.wf(parent, w + 1));
                assert forall|j: int, x: int| #![trigger preds@[j], ancestor(parent, x, preds@[j] as int)]
                    0 <= j < k + 1 && w < x && ancestor(parent, x, preds@[j] as int) implies
                    forest.semi@[w as int] <= semi0[x] by {
                    if j == k {
                        lemma_ancestor_bounds(parent, x, v as int);
                        assert(forest0.semi@[u as int] <= forest0.semi@[x]);
                    }
                }
                assert(forest.semi@ =~= semi0.update(w as int, forest.semi@[w as int]));
            }
        }
        let p: usize = numbering.parent[w];
        let semi_w: usize = forest.semi[w];
        proof {
            assert(e(parent[w as int] as int, w as int));
            assert(preds@.contains(p));
            let j = preds@.index_of(p);
            assert(preds@[j] < w);
            assert forall|v: int| #[trigger] e(v, w as int) && v < w implies semi_w <= v by {
                let j = preds@.index_of(v as usize);
                assert(preds@[j] < w);
            }
            assert forall|v: int, u: int, t: int|
                #[trigger] e(v, w as int) && w < u && #[trigger] ancestor(parent, u, v)
                    && #[trigger] reaches_above(e, t, u) implies semi_w <= t by {
                let j = preds@.index_of(v as usize);
                lemma_ancestor_bounds(parent, u, v);
                assert(ancestor(parent, u, preds@[j] as int));
                assert(is_semidominator(e, semi0[u] as int, u));
            }
            lemma_semidominator_step(e, parent, semi_w as int, w as int);
            lemma_semidominator_is_ancestor(e, parent, semi_w as int, w as int);
        }
        let ghost bucket0 = bucket@;
        let ghost idom0 = idom@;
        bucket[semi_w].push(w);
        let ghost bucket1 = bucket@;
        forest.link(Ghost(parent), p, w);
        let ghost semi = forest.semi@;
        let mut waiting: Vec<usize> = Vec::new();
        std::mem::swap(&mut waiting, &mut bucket[p]);
        proof {
            assert forall|v: int| w <= v < len implies is_semidominator(
                e,
                #[trigger] semi[v] as int,
                v,
            ) by {
                if v > w {
                    assert(is_semidominator(e, semi0[v] as int, v));
                }
            }
            assert(waiting@ == bucket1[p as int]@);
            assert forall|j: int| 0 <= j < waiting@.len() implies w <= #[trigger] waiting@[j] < len
                && semi[waiting@[j] as int] == p by {
                if semi_w == p && j == bucket0[p as int]@.len() {
                } else {
                    assert(bucket0[p as int]@[j] == waiting@[j]);
                }
            }
        }
        for k in 0..waiting.len()
            invariant
                2 <= w < len,
                len == parent.len(),
                is_depth_first(e, parent),
                p == parent[w as int],
                forest.wf(parent, w as int),
                forest.semi@ == semi,
                idom0.len() == len,
                idom@.len() == len,
                forall|v: int|
                    w <= v < len ==> is_semidominator(e, #[trigger] semi[v] as int, v),
                forall|j: int|
                    0 <= j < waiting@.len() ==> w <= #[trigger] waiting@[j] < len
                        && semi[waiting@[j] as int] == p,
                forall|v: int| #![trigger idom@[v]] 0 <= v < len && !waiting@.contains(v as usize) ==> idom@[v] == idom0[v],
                forall|j: int|
                    0 <= j < k ==> decided(e, parent, semi, idom@, #[trigger] waiting@[j] as int),
        {
            let v: usize = waiting[k];
            proof {
                lemma_semidominator_is_ancestor(e, parent, p as int, v as int);
                lemma_later_child(parent, p as int, w as int, v as int);
            }
            let u: usize = forest.eval(Ghost(parent), Ghost(w as int), v);
            proof {
                assert(waiting@.contains(v));
                assert forall|z: int| p < z && #[trigger] ancestor(parent, z, v as int) implies
                    semi[u as int] <= semi[z] by {
                    lemma_below(parent, p as int, z, v as int);
                }
            }
            if forest.semi[u] < forest.semi[v] {
                idom[v] = u;
            } else {
                idom[v] = p;
                proof {
                    assert forall|z: int, t: int|
                        p < z && #[trigger] ancestor(parent, z, v as int)
                            && #[trigger] reaches_above(e, t, z) implies p <= t by {
                        lemma_below(parent, p as int, z, v as int);
                        lemma_ancestor_bounds(parent, z, v as int);
                        assert(is_semidominator(e, semi[z] as int, z));
                    }
                    lemma_idom_is_semidominator(e, parent, p as int, v as int);
                }
            }
            assert(decided(e, parent, semi, idom@, v as int));
        }
        proof {
            assert forall|v: int| w - 1 < v < len implies #[trigger] waits_or_decided(
                e,
                parent,
                semi,
                idom@,
                bucket@,
                w - 1,
                v,
            ) by {
                let s = semi[v] as int;
                lemma_semidominator_is_ancestor(e, parent, s, v);
                lemma_child_toward(parent, s, v);
                let c = child_toward(parent, s, v);
                if s == p {
                    lemma_later_child(parent, p as int, w as int, v);
                    if v == w {
                        assert(bucket1[p as int]@ == bucket0[p as int]@.push(w));
                        assert(waiting@[bucket0[p as int]@.len() as int] == w);
                    } else if c <= w {
                        assert(waits_or_decided(e, parent, semi0, idom0, bucket0, w as int, v));
                        let j = bucket0[p as int]@.index_of(v as usize);
                        assert(waiting@[j] == v);
                    } else {
                        assert(waits_or_decided(e, parent, semi0, idom0, bucket0, w as int, v));
                    }
                    if waiting@.contains(v as usize) {
                        let j = waiting@.index_of(v as usize);
                        assert(decided(e, parent, semi, idom@, waiting@[j] as int));
                    } else {
                        lemma_decided_stable(e, parent, semi0, semi, idom0, idom@, w as int, v);
                    }
                } else {
                    assert(!waiting@.contains(v as usize));
                    if v == w {
                        assert(bucket1[s]@ == bucket0[s]@.push(w));
                        assert(bucket@[s]@[bucket0[s]@.len() as int] == w);
                    } else {
                        assert(waits_or_decided(e, parent, semi0, idom0, bucket0, w as int, v));
                        if c <= w {
                            let j = bucket0[s]@.index_of(v as usize);
                            assert(bucket@[s]@[j] == v);
                            assert(c != w);
                        } else {
                            lemma_decided_stable(e, parent, semi0, semi, idom0, idom@, w as int, v);
                        }
                    }
                }
            }
            assert forall|b: int, j: int|
                0 <= b < bucket@.len() && 0 <= j < bucket@[b]@.len() implies w - 1 < (
            #[trigger] bucket@[b]@[j]) < parent.len() && semi[bucket@[b]@[j] as int] == b by {
                assert(b != p);
                if b == semi_w && j == bucket0[b]@.len() {
                } else {
                    assert(bucket0[b]@[j] == bucket@[b]@[j]);
                }
            }
            assert(done_above(e, parent, semi, idom@, bucket@, w - 1));
        }
        w = w - 1;
    }
    let ghost raw = idom@;
    let ghost semi = forest.semi@;
    proof {
        assert forall|v: int| 2 <= v < len implies decided(e, parent, semi, raw, v) by {
            assert(waits_or_decided(e, parent, semi, raw, bucket@, 1, v));
            assert(is_semidominator(e, semi[v] as int, v));
            lemma_semidominator_is_ancestor(e, parent, semi[v] as int, v);
            lemma_child_toward(parent, semi[v] as int, v);
        }
    }
    for x in 2..len
        invariant
            len == parent.len(),
            is_depth_first(e, parent),
            forest.semi@ == semi,
            semi.len() == len,
            raw.len() == len,
            idom@.len() == len,
            forall|v: int| 2 <= v < len ==> is_semidominator(e, #[trigger] semi[v] as int, v),
            forall|v: int| 2 <= v < len ==> #[trigger] decided(e, parent, semi, raw, v),
            forall|v: int| x <= v < len ==> #[trigger] idom@[v] == raw[v],
            forall|v: int|
                2 <= v < x ==> is_tree_idom(e, parent, #[trigger] idom@[v] as int, v),
    {
        assert(decided(e, parent, semi, raw, x as int));
        assert(is_semidominator(e, semi[x as int] as int, x as int));
        proof {
            lemma_semidominator_is_ancestor(e, parent, semi[x as int] as int, x as int);
        }
        if idom[x] != forest.semi[x] {
            let u: usize = idom[x];
            let i: usize = idom[u];
            proof {
                let s = semi[x as int] as int;
                assert(is_semidominator(e, semi[u as int] as int, u as int));
                assert(is_tree_idom(e, parent, i as int, u as int));
                assert forall|z: int, v: int|
                    s < z && #[trigger] ancestor(parent, z, x as int) && #[trigger] reaches_above(
                        e,
                        v,
                        z,
                    ) implies semi[u as int] <= v by {
                    lemma_ancestor_bounds(parent, z, x as int);
                    assert(is_semidominator(e, semi[z] as int, z));
                }
                lemma_idom_is_inherited(
                    e,
                    parent,
                    s,
                    x as int,
                    u as int,
                    semi[u as int] as int,
                    i as int,
                );
            }
            idom[x] = i;
        }
    }
    idom
}

/// A decision does not depend on the semidominators of lower nodes.
proof fn lemma_decided_stable(
    e: spec_fn(int, int) -> bool,
    parent: Seq<usize>,
    semi0: Seq<usize>,
    semi: Seq<usize>,
    idom0: Seq<usize>,
    idom: Seq<usize>,
    w: int,
    v: int,
)
    requires
        is_depth_first(e, parent),
        2 <= w < v < parent.len(),
        semi0.len() == parent.len(),
        semi == semi0.update(w, semi[w]),
        idom[v] == idom0[v],
        decided(e, parent, semi0, idom0, v),
        1 <= semi0[v] < v,
        ancestor(parent, semi0[v] as int, v),
        w < child_toward(parent, semi0[v] as int, v),
    ensures
        decided(e, parent, semi, idom, v),
{
    let s = semi0[v] as int;
    let u = idom0[v] as int;
    if u != s {
        lemma_below(parent, s, u, v);
        assert forall|z: int| s < z && #[trigger] ancestor(parent, z, v) implies semi[u] <= semi[z] by {
            lemma_below(parent, s, z, v);
            lemma_ancestor_bounds(parent, z, v);
        }
    }
}

impl<C: Cfg> Numbering<C> {
    /// A walk over the edges that begins at a numbered node meets numbered nodes only.
    proof fn lemma_walk_numbered(&self, graph: &C, root: C::NodeId, p: Seq<C::NodeId>, i: int)
        requires
            self.is_complete(graph, root),
            is_walk(flow(graph), p),
            self.is_numbered(p[0]),
            0 <= i < p.len(),
        ensures
            self.is_numbered(p[i]),
        decreases i,
    {
        if i > 0 {
            self.lemma_walk_numbered(graph, root, p, i - 1);
            assert(step_at(flow(graph), p, i - 1));
            let k = self.number@[p[i - 1].spec_index()] as int;
            assert(self.vertex@[k] == p[i - 1]);
            assert(self.finished(graph, k));
            assert(graph.spec_successors(self.vertex@[k]).contains(p[i]));
        }
    }

    /// The numbered nodes are those that can be reached from the root.
    pub(crate) proof fn lemma_numbered_is_reachable(&self, graph: &C, root: C::NodeId, n: C::NodeId)
        requires
            self.is_complete(graph, root),
        ensures
            self.is_numbered(n) <==> reaches(flow(graph), root, n),
    {
        self.lemma_depth_first(graph, root);
        assert(self.has_number(self.vertex@[1], 1));
        if reaches(flow(graph), root, n) {
            let p = choose|p: Seq<C::NodeId>| walk_between(flow(graph), p, root, n);
            self.lemma_walk_numbered(graph, root, p, p.len() - 1);
        }
        if self.is_numbered(n) {
            let k = self.number@[n.spec_index()] as int;
            lemma_root_is_ancestor(self.parent@, k);
            let p = lemma_tree_walk(self.steps(graph), self.parent@, 1, k);
            self.lemma_walk_of_numbers(graph, root, p, 1, k);
        }
    }

    /// A walk over numbers is a walk over nodes.
    proof fn lemma_walk_of_numbers(&self, graph: &C, root: C::NodeId, p: Seq<int>, a: int, b: int)
        requires
            self.is_complete(graph, root),
            walk_between(self.steps(graph), p, a, b),
            1 <= a < self.vertex@.len(),
        ensures
            walk_between(flow(graph), p.map_values(|x: int| self.vertex@[x]), self.vertex@[a], self.vertex@[b]),
            forall|i: int| 0 <= i < p.len() ==> 1 <= #[trigger] p[i] < self.vertex@.len(),
    {
        let q = p.map_values(|x: int| self.vertex@[x]);
        assert forall|i: int| 0 <= i < q.len() - 1 implies #[trigger] step_at(flow(graph), q, i) by {
            assert(step_at(self.steps(graph), p, i));
        }
        assert forall|i: int| 0 <= i < p.len() implies 1 <= #[trigger] p[i] < self.vertex@.len() by {
            if i > 0 {
                assert(step_at(self.steps(graph), p, i - 1));
            }
        }
    }

    /// Lying on every walk means the same for numbers and for nodes.
    proof fn lemma_on_every_walk(&self, graph: &C, root: C::NodeId, x: int, w: int)
        requires
            self.is_complete(graph, root),
            1 <= x < self.vertex@.len(),
            1 <= w < self.vertex@.len(),
        ensures
            on_every_walk(self.steps(graph), 1, x, w) <==> on_every_walk(
                flow(graph),
                root,
                self.vertex@[x],
                self.vertex@[w],
            ),
    {
        let e = self.steps(graph);
        let f = flow(graph);
        let (d, n) = (self.vertex@[x], self.vertex@[w]);
        assert(self.has_number(self.vertex@[1], 1));
        assert(self.has_number(self.vertex@[w], w));
        assert(self.has_number(self.vertex@[x], x));
        if on_every_walk(e, 1, x, w) {
            assert forall|q: Seq<C::NodeId>| #[trigger] walk_between(f, q, root, n) implies q.contains(
                d,
            ) by {
                let p = Seq::new(q.len(), |i: int| self.number@[q[i].spec_index()] as int);
                assert forall|i: int| 0 <= i < p.len() implies 1 <= #[trigger] p[i]
                    < self.vertex@.len() && self.vertex@[p[i]] == q[i] by {
                    self.lemma_walk_numbered(graph, root, q, i);
                }
                assert forall|i: int| 0 <= i < p.len() - 1 implies #[trigger] step_at(e, p, i) by {
                    assert(step_at(f, q, i));
                    assert(self.vertex@[p[i]] == q[i]);
                    assert(self.vertex@[p[i + 1]] == q[i + 1]);
                }
                assert(walk_between(e, p, 1, w));
                let i = p.index_of(x);
                assert(q[i] == self.vertex@[p[i]]);
            }
        }
        if on_every_walk(f, root, d, n) {
            assert forall|p: Seq<int>| #[trigger] walk_between(e, p, 1, w) implies p.contains(x) by {
                self.lemma_walk_of_numbers(graph, root, p, 1, w);
                let q = p.map_values(|x: int| self.vertex@[x]);
                let i = q.index_of(d);
                assert(q[i] == self.vertex@[p[i]]);
                assert(self.has_number(self.vertex@[p[i]], p[i]));
            }
        }
    }

    /// Immediate dominators in terms of the tree are immediate dominators.
    pub(crate) proof fn lemma_tree_idom(&self, graph: &C, root: C::NodeId, i: int, w: int)
        requires
            self.is_complete(graph, root),
            2 <= w < self.vertex@.len(),
            is_tree_idom(self.steps(graph), self.parent@, i, w),
        ensures
            1 <= i < w,
            immediately_dominates(flow(graph), root, self.vertex@[i], self.vertex@[w]),
    {
        let e = self.steps(graph);
        let f = flow(graph);
        let (d, n) = (self.vertex@[i], self.vertex@[w]);
        self.lemma_depth_first(graph, root);
        lemma_ancestor_bounds(self.parent@, i, w);
        self.lemma_on_every_walk(graph, root, i, w);
        assert(self.has_number(self.vertex@[w], w));
        assert(self.has_number(self.vertex@[i], i));
        self.lemma_numbered_is_reachable(graph, root, n);
        self.lemma_numbered_is_reachable(graph, root, d);
        assert forall|c: C::NodeId| #[trigger] strictly_dominates(f, root, c, n) implies dominates(
            f,
            root,
            c,
            d,
        ) by {
            let q = choose|q: Seq<C::NodeId>| walk_between(f, q, root, n);
            lemma_on_walk_reached(f, q, root, n, c);
            self.lemma_numbered_is_reachable(graph, root, c);
            let x = self.number@[c.spec_index()] as int;
            assert(self.vertex@[x] == c);
            self.lemma_on_every_walk(graph, root, x, w);
            lemma_root_is_ancestor(self.parent@, w);
            let t = lemma_tree_walk(e, self.parent@, 1, w);
            assert(t.contains(x));
            assert(ancestor(self.parent@, x, w)) by {
                assert(t[t.index_of(x)] == x);
            }
            lemma_ancestor_bounds(self.parent@, x, w);
            assert(x <= i);
            lemma_ancestors_ordered(self.parent@, x, i, w);
            self.lemma_on_every_walk(graph, root, x, i);
            assert forall|p: Seq<int>| #[trigger] walk_between(e, p, 1, i) implies p.contains(x) by {
                if x == i {
                    assert(p[p.len() - 1] == x);
                } else {
                    let t = lemma_tree_walk(e, self.parent@, i, w);
                    lemma_join(e, p, t, 1, i, w);
                    assert(joined(p, t).contains(x));
                    if t.contains(x) {
                        assert(t[t.index_of(x)] >= i);
                    }
                }
            }
        }
    }
}

} // verus!
