use crate::fx;
use crate::graph::analysis::tarjan::{number_depth_first, run_lengauer_tarjan};
use crate::graph::walk::{
    dominates, immediately_dominates, is_walk, lemma_dominance_reflexive,
    lemma_dominance_transitive, lemma_extend, lemma_strict_dominates_pred, lemma_immediate_dominator_unique, lemma_trivial_walk,
    reaches, step_at, strictly_dominates, walk_between,
};
use crate::graph::{flow, Cfg};
use crate::registry::{lemma_id_injective, same_id, Identifier};
use crate::counting::lemma_distinct_in_range;
use rustc_hash::{FxHashMap, FxHashSet};
use vstd::prelude::*;

verus! {

/// Every node of `list` can be reached from `root`, and none occurs twice.
pub open spec fn lists_reachable<C: Cfg>(graph: &C, root: C::NodeId, list: Seq<C::NodeId>) -> bool {
    &&& list.no_duplicates()
    &&& forall|i: int| 0 <= i < list.len() ==> reaches(flow(graph), root, #[trigger] list[i])
}

/// A list of distinct identifiers is no longer than there are indices.
pub proof fn lemma_ids_bounded<Id: Identifier>(list: Seq<Id>)
    requires
        list.no_duplicates(),
    ensures
        list.len() <= usize::MAX + 1,
{
    let raw = Seq::new(list.len(), |i: int| list[i].spec_index() as int);
    assert forall|i: int, j: int| 0 <= i < raw.len() && 0 <= j < raw.len() && i != j implies raw[i]
        != raw[j] by {
        lemma_id_injective(list[i], list[j]);
    }
    lemma_distinct_in_range(raw, 0, usize::MAX + 1);
}

/// The pending nodes without those at the end that have been visited.
pub open spec fn still_ahead<N>(pending: Seq<N>, visited: Seq<N>) -> Seq<N>
    decreases pending.len(),
{
    if pending.len() > 0 && visited.contains(pending.last()) {
        still_ahead(pending.drop_last(), visited)
    } else {
        pending
    }
}

/// The nodes of a list that have not been visited.
pub open spec fn not_visited<N>(list: Seq<N>, visited: Seq<N>) -> Seq<N>
    decreases list.len(),
{
    if list.len() == 0 {
        Seq::empty()
    } else {
        let rest = not_visited(list.drop_last(), visited);
        if visited.contains(list.last()) {
            rest
        } else {
            rest.push(list.last())
        }
    }
}

/// Step `i` of a depth-first search that meets the nodes `order`: the last pending node
/// that is not visited comes next, and its successors are pending after it.
pub open spec fn searches_at<C: Cfg>(
    graph: &C,
    order: Seq<C::NodeId>,
    pending: Seq<Seq<C::NodeId>>,
    i: int,
) -> bool {
    let ready = still_ahead(pending[i], order.take(i));
    &&& ready.len() > 0 && ready.last() == order[i]
    &&& pending[i + 1] == ready.drop_last() + not_visited(
        graph.spec_successors(order[i]),
        order.take(i + 1),
    )
}

/// `order` is the order in which a depth-first search from `root` meets the nodes.
pub open spec fn is_search_order<C: Cfg>(
    graph: &C,
    root: C::NodeId,
    order: Seq<C::NodeId>,
    pending: Seq<Seq<C::NodeId>>,
) -> bool {
    &&& pending.len() == order.len() + 1
    &&& pending[0] == seq![root]
    &&& forall|i: int| 0 <= i < order.len() ==> #[trigger] searches_at(graph, order, pending, i)
}

proof fn lemma_search_on<C: Cfg>(
    graph: &C,
    root: C::NodeId,
    order: Seq<C::NodeId>,
    pending: Seq<Seq<C::NodeId>>,
    node: C::NodeId,
    next: Seq<C::NodeId>,
)
    requires
        is_search_order(graph, root, order, pending),
        ({
            let ready = still_ahead(pending.last(), order);
            &&& ready.len() > 0 && ready.last() == node
            &&& next == ready.drop_last() + not_visited(
                graph.spec_successors(node),
                order.push(node),
            )
        }),
    ensures
        is_search_order(graph, root, order.push(node), pending.push(next)),
{
    let (more, lists) = (order.push(node), pending.push(next));
    assert forall|i: int| 0 <= i < more.len() implies #[trigger] searches_at(graph, more, lists, i) by {
        if i < order.len() {
            assert(searches_at(graph, order, pending, i));
            assert(more.take(i) =~= order.take(i));
            assert(more.take(i + 1) =~= order.take(i + 1));
        } else {
            assert(more.take(i) =~= order);
            assert(more.take(i + 1) =~= more);
        }
    }
}

/// The nodes that can be reached from `root`, in the order of a depth-first search.
#[verifier::rlimit(40)]
pub fn reachable_from_root<C: Cfg>(graph: &C, root: C::NodeId) -> (order: Vec<C::NodeId>)
    requires
        graph.is_valid(),
    ensures
        order@.no_duplicates(),
        forall|n: C::NodeId| #[trigger] order@.contains(n) <==> reaches(flow(graph), root, n),
        order@.len() > 0,
        order@[0] == root,
        exists|pending: Seq<Seq<C::NodeId>>| #[trigger]
            is_search_order(graph, root, order@, pending) && still_ahead(
                pending.last(),
                order@,
            ).len() == 0,
{
    let mut visited: FxHashSet<usize> = fx::set_new();
    let mut order: Vec<C::NodeId> = Vec::new();
    let mut stack: Vec<C::NodeId> = vec![root];
    let ghost e = flow(graph);
    let ghost mut pending: Seq<Seq<C::NodeId>> = seq![stack@];
    proof {
        assert(stack@ =~= seq![root]);
        lemma_trivial_walk(e, root);
        lemma_ids_bounded(order@);
    }
    while stack.len() > 0
        invariant
            graph.is_valid(),
            e == flow(graph),
            lists_reachable(graph, root, order@),
            is_search_order(graph, root, order@, pending),
            still_ahead(stack@, order@) == still_ahead(pending.last(), order@),
            forall|n: C::NodeId| visited@.contains(#[trigger] n.spec_index()) <==> order@.contains(n),
            forall|i: int| 0 <= i < stack@.len() ==> reaches(e, root, #[trigger] stack@[i]),
            forall|i: int, s: C::NodeId|
                0 <= i < order@.len() && #[trigger] graph.spec_successors(#[trigger] order@[i]).contains(s) ==> order@.contains(s) || stack@.contains(s),
            order@.len() > 0 ==> order@[0] == root,
            order@.len() == 0 ==> stack@ =~= seq![root],
            order@.len() <= usize::MAX + 1,
        decreases usize::MAX + 1 - order@.len(), stack@.len(),
    {
        let ghost stack0 = stack@;
        let ghost order0 = order@;
        let node = stack.pop().unwrap();
        proof {
            assert(stack0[stack0.len() - 1] == node);
            assert(stack@ =~= stack0.drop_last());
        }
        if !fx::set_insert(&mut visited, node.to_usize()) {
            proof {
                assert(order@.contains(node));
                assert forall|i: int, s: C::NodeId|
                    0 <= i < order@.len() && #[trigger] graph.spec_successors(
                        #[trigger] order@[i],
                    ).contains(s) implies order@.contains(s) || stack@.contains(s) by {
                    if stack0.contains(s) && s != node {
                        let k = stack0.index_of(s);
                        assert(stack@[k] == s);
                    }
                }
            }
            continue;
        }
        order.push(node);
        proof {
            assert(!order0.contains(node));
            assert(order@.no_duplicates());
            lemma_ids_bounded(order@);
            assert forall|n: C::NodeId| visited@.contains(#[trigger] n.spec_index())
                <==> order@.contains(n) by {
                lemma_id_injective(n, node);
                if order0.contains(n) {
                    assert(order@[order0.index_of(n)] == n);
                }
                if n == node {
                    assert(order@[order0.len() as int] == n);
                }
            }
        }
        let targets = graph.successors(node);
        let ghost stack1 = stack@;
        for j in 0..targets.len()
            invariant
                e == flow(graph),
                targets@ == graph.spec_successors(node),
                reaches(e, root, node),
                forall|n: C::NodeId| visited@.contains(#[trigger] n.spec_index()) <==> order@.contains(n),
                forall|i: int| 0 <= i < stack@.len() ==> reaches(e, root, #[trigger] stack@[i]),
                forall|s: C::NodeId| #[trigger] stack1.contains(s) ==> stack@.contains(s),
                stack@ == stack1 + not_visited(targets@.take(j as int), order@),
                forall|k: int|
                    0 <= k < j ==> order@.contains(#[trigger] targets@[k]) || stack@.contains(targets@[k]),
        {
            let succ = targets[j];
            let ghost stack2 = stack@;
            assert(targets@.take(j + 1).drop_last() =~= targets@.take(j as int));
            if !fx::set_contains(&visited, succ.to_usize()) {
                stack.push(succ);
                proof {
                    assert(targets@.contains(succ));
                    let p = choose|p: Seq<C::NodeId>| walk_between(e, p, root, node);
                    lemma_extend(e, p, root, node, succ);
                    assert(stack@[stack2.len() as int] == succ);
                    assert forall|s: C::NodeId| #[trigger] stack2.contains(s) implies stack@.contains(s) by {
                        assert(stack@[stack2.index_of(s)] == s);
                    }
                }
            }
        }
        proof {
            assert(targets@.take(targets@.len() as int) =~= targets@);
            lemma_search_on(graph, root, order0, pending, node, stack@);
            pending = pending.push(stack@);
            assert forall|i: int, s: C::NodeId|
                0 <= i < order@.len() && #[trigger] graph.spec_successors(
                    #[trigger] order@[i],
                ).contains(s) implies order@.contains(s) || stack@.contains(s) by {
                if i < order0.len() {
                    assert(graph.spec_successors(order0[i]).contains(s));
                    if order0.contains(s) {
                        assert(order@[order0.index_of(s)] == s);
                    } else if s == node {
                        assert(order@[order0.len() as int] == s);
                    } else {
                        let k = stack0.index_of(s);
                        assert(stack1[k] == s);
                        assert(stack1.contains(s));
                    }
                } else {
                    let k = targets@.index_of(s);
                    assert(targets@[k] == s);
                }
            }
        }
    }
    proof {
        assert forall|n: C::NodeId| reaches(e, root, n) implies #[trigger] order@.contains(n) by {
            let p = choose|p: Seq<C::NodeId>| walk_between(e, p, root, n);
            lemma_closed_walk(graph, order@, p, p.len() - 1);
        }
        assert forall|n: C::NodeId| #[trigger] order@.contains(n) implies reaches(e, root, n) by {
            assert(reaches(e, root, order@[order@.index_of(n)]));
        }
    }
    order
}

/// A walk never leaves a list that holds the successors of all its nodes.
proof fn lemma_closed_walk<C: Cfg>(graph: &C, list: Seq<C::NodeId>, p: Seq<C::NodeId>, i: int)
    requires
        is_walk(flow(graph), p),
        list.contains(p[0]),
        0 <= i < p.len(),
        forall|k: int, s: C::NodeId|
            0 <= k < list.len() && #[trigger] graph.spec_successors(#[trigger] list[k]).contains(s)
                ==> list.contains(s),
    ensures
        list.contains(p[i]),
    decreases i,
{
    if i > 0 {
        lemma_closed_walk(graph, list, p, i - 1);
        assert(step_at(flow(graph), p, i - 1));
        let k = list.index_of(p[i - 1]);
        assert(graph.spec_successors(list[k]).contains(p[i]));
    }
}

/// `y` is in the dominance frontier of `n`: `n` dominates a predecessor of `y` but does
/// not strictly dominate `y`.
pub open spec fn in_frontier<N>(e: spec_fn(N, N) -> bool, root: N, n: N, y: N) -> bool {
    &&& exists|p: N| #[trigger] dominates(e, root, n, p) && e(p, y)
    &&& !strictly_dominates(e, root, n, y)
}

/// Dominator tree for the nodes that can be reached from a root.
///
/// The nodes carry depth-first numbers that begin at 1, and `idom` leads from the
/// number of a node to that of its immediate dominator. The sets, the children and
/// the frontier are derived from it when they are asked for.
#[verifier::reject_recursive_types(N)]
pub struct DominatorTree<N: Identifier> {
    number: FxHashMap<usize, usize>,
    vertex: Vec<N>,
    idom: Vec<usize>,
    pred: Vec<Vec<usize>>,
    flow: Ghost<spec_fn(N, N) -> bool>,
}

impl<N: Identifier> DominatorTree<N> {
    /// The step relation that was analyzed.
    pub closed spec fn flow(&self) -> spec_fn(N, N) -> bool {
        self.flow@
    }

    /// The node at which the analyzed walks begin.
    pub closed spec fn spec_root(&self) -> N {
        self.vertex@[1]
    }

    /// `n` was met by the analysis.
    spec fn is_numbered(&self, n: N) -> bool {
        self.number@.contains_key(n.spec_index())
    }

    spec fn num(&self, n: N) -> int {
        self.number@[n.spec_index()] as int
    }

    #[verifier::type_invariant]
    spec fn inv(&self) -> bool {
        let len = self.vertex@.len();
        let e = self.flow@;
        let root = self.vertex@[1];
        &&& len >= 2
        &&& self.idom@.len() == len
        &&& self.pred@.len() == len
        &&& forall|i: int| 1 <= i < len ==> self.is_numbered(#[trigger] self.vertex@[i])
            && self.num(self.vertex@[i]) == i
        &&& forall|n: N| #[trigger]
            self.is_numbered(n) ==> 1 <= self.num(n) < len && self.vertex@[self.num(n)] == n
        &&& forall|n: N| #[trigger] self.is_numbered(n) <==> reaches(e, root, n)
        &&& forall|w: int|
            2 <= w < len ==> 1 <= (#[trigger] self.idom@[w]) < w && immediately_dominates(
                e,
                root,
                self.vertex@[self.idom@[w] as int],
                self.vertex@[w],
            )
        &&& forall|w: int, p: int|
            1 <= w < len && 0 <= p < self.pred@[w]@.len() ==> 1 <= #[trigger] self.pred@[w]@[p]
                < len && e(self.vertex@[self.pred@[w]@[p] as int], self.vertex@[w])
        &&& forall|v: int, w: int|
            1 <= v < len && 1 <= w < len && #[trigger] e(self.vertex@[v], self.vertex@[w])
                ==> self.pred@[w]@.contains(v as usize)
    }

    /// The dominators of a node are the node and the dominators of its immediate dominator.
    proof fn lemma_chain(&self, d: N, w: int)
        requires
            self.inv(),
            1 <= w < self.vertex@.len(),
        ensures
            dominates(self.flow@, self.vertex@[1], d, self.vertex@[w]) <==> d == self.vertex@[w]
                || (w >= 2 && dominates(
                self.flow@,
                self.vertex@[1],
                d,
                self.vertex@[self.idom@[w] as int],
            )),
    {
        let (e, root, n) = (self.flow@, self.vertex@[1], self.vertex@[w]);
        assert(self.is_numbered(n));
        lemma_dominance_reflexive(e, root, n);
        if w == 1 {
            if dominates(e, root, d, root) {
                lemma_trivial_walk(e, root);
                assert(seq![root].contains(d));
            }
        } else {
            let i = self.vertex@[self.idom@[w] as int];
            assert(immediately_dominates(e, root, i, n));
            if dominates(e, root, d, i) {
                lemma_dominance_transitive(e, root, d, i, n);
            }
            if dominates(e, root, d, n) && d != n {
                assert(strictly_dominates(e, root, d, n));
            }
        }
    }

    /// Only nodes that can be reached dominate, or are dominated.
    proof fn lemma_dominance_numbered(&self, d: N, n: N)
        requires
            self.inv(),
            dominates(self.flow@, self.vertex@[1], d, n),
        ensures
            self.is_numbered(d),
            self.is_numbered(n),
            self.num(d) <= self.num(n),
        decreases self.num(n),
    {
        let w = self.num(n);
        assert(self.is_numbered(n));
        self.lemma_chain(d, w);
        if d != n {
            self.lemma_dominance_numbered(d, self.vertex@[self.idom@[w] as int]);
            assert(self.is_numbered(self.vertex@[self.idom@[w] as int]));
        }
    }

    /// The root of the dominator tree (the entry node of the flow graph).
    pub fn root(&self) -> (root: N)
        ensures
            root == self.spec_root(),
    {
        proof {
            use_type_invariant(self);
        }
        self.vertex[1]
    }

    /// The nodes that were reached, each after its immediate dominator.
    pub fn order(&self) -> (order: Vec<N>)
        ensures
            order@.no_duplicates(),
            order@.len() > 0,
            order@[0] == self.spec_root(),
            forall|n: N| #[trigger]
                order@.contains(n) <==> reaches(self.flow(), self.spec_root(), n),
            forall|i: int|
                #![trigger order@[i]]
                1 <= i < order@.len() ==> exists|j: int|
                    0 <= j < i && immediately_dominates(
                        self.flow(),
                        self.spec_root(),
                        #[trigger] order@[j],
                        order@[i],
                    ),
    {
        proof {
            use_type_invariant(self);
        }
        let ghost (e, root) = (self.flow@, self.vertex@[1]);
        let mut order: Vec<N> = Vec::new();
        for w in 1..self.vertex.len()
            invariant
                self.inv(),
                order@ == self.vertex@.subrange(1, w as int),
        {
            order.push(self.vertex[w]);
            assert(order@ =~= self.vertex@.subrange(1, w + 1));
        }
        proof {
            assert forall|i: int, j: int|
                0 <= i < order@.len() && 0 <= j < order@.len() && i != j implies order@[i]
                != order@[j] by {
                assert(self.num(self.vertex@[i + 1]) == i + 1);
                assert(self.num(self.vertex@[j + 1]) == j + 1);
            }
            assert forall|n: N| #[trigger] order@.contains(n) <==> reaches(e, root, n) by {
                if order@.contains(n) {
                    let i = order@.index_of(n);
                    assert(self.is_numbered(self.vertex@[i + 1]));
                }
                if reaches(e, root, n) {
                    assert(self.is_numbered(n));
                    assert(order@[self.num(n) - 1] == n);
                }
            }
            assert forall|i: int|
                #![trigger order@[i]]
                1 <= i < order@.len() implies exists|j: int|
                0 <= j < i && immediately_dominates(e, root, #[trigger] order@[j], order@[i]) by {
                let j = self.idom@[i + 1] - 1;
                assert(immediately_dominates(e, root, order@[j], order@[i]));
            }
        }
        order
    }

    /// The immediate dominator of `node`, or `None` if `node` is the root or was not
    /// reached.
    pub fn immediate_dominator(&self, node: N) -> (idom: Option<N>)
        ensures
            idom is Some <==> reaches(self.flow(), self.spec_root(), node) && node
                != self.spec_root(),
            idom matches Some(d) ==> immediately_dominates(
                self.flow(),
                self.spec_root(),
                d,
                node,
            ),
    {
        proof {
            use_type_invariant(self);
            assert(self.is_numbered(node) <==> reaches(self.flow@, self.vertex@[1], node));
            assert(self.is_numbered(self.vertex@[1]));
            lemma_id_injective(node, self.vertex@[1]);
        }
        match fx::map_get(&self.number, node.to_usize()) {
            Some(k) => {
                let k: usize = *k;
                if k == 1 {
                    None
                } else {
                    Some(self.vertex[self.idom[k]])
                }
            },
            None => None,
        }
    }

    /// The children of `node` in the dominator tree: the nodes whose immediate
    /// dominator it is.
    pub fn children_of(&self, node: N) -> (children: Vec<N>)
        ensures
            children@.no_duplicates(),
            forall|n: N| #[trigger]
                children@.contains(n) <==> immediately_dominates(
                    self.flow(),
                    self.spec_root(),
                    node,
                    n,
                ),
    {
        proof {
            use_type_invariant(self);
        }
        let ghost (e, root) = (self.flow@, self.vertex@[1]);
        let mut children: Vec<N> = Vec::new();
        for w in 2..self.vertex.len()
            invariant
                self.inv(),
                e == self.flow@,
                root == self.vertex@[1],
                forall|i: int|
                    #![trigger children@[i]]
                    0 <= i < children@.len() ==> self.is_numbered(children@[i]) && self.num(
                        children@[i],
                    ) < w && immediately_dominates(e, root, node, children@[i]),
                children@.no_duplicates(),
                forall|v: int|
                    2 <= v < w && #[trigger] self.vertex@[self.idom@[v] as int] == node
                        ==> children@.contains(self.vertex@[v]),
        {
            let ghost before = children@;
            if same_id(self.vertex[self.idom[w]], node) {
                children.push(self.vertex[w]);
                proof {
                    let n = self.vertex@[w as int];
                    assert(self.is_numbered(n));
                    assert(!before.contains(n));
                    assert(children@[before.len() as int] == n);
                    assert forall|v: int|
                        2 <= v < w + 1 && #[trigger] self.vertex@[self.idom@[v] as int]
                            == node implies children@.contains(self.vertex@[v]) by {
                        if v < w {
                            assert(children@[before.index_of(self.vertex@[v])] == self.vertex@[v]);
                        }
                    }
                }
            }
        }
        proof {
            assert forall|n: N| immediately_dominates(e, root, node, n) implies
                #[trigger] children@.contains(n) by {
                assert(reaches(e, root, n));
                assert(self.is_numbered(n));
                let w = self.num(n);
                if w == 1 {
                    self.lemma_chain(node, 1);
                    assert(false);
                }
                let d = self.vertex@[self.idom@[w] as int];
                lemma_immediate_dominator_unique(e, root, node, d, n);
            }
        }
        children
    }

    /// Whether `dominator` dominates `node`. Every node that was reached dominates itself.
    pub fn dominates(&self, dominator: N, node: N) -> (b: bool)
        ensures
            b == dominates(self.flow(), self.spec_root(), dominator, node),
    {
        proof {
            use_type_invariant(self);
        }
        match fx::map_get(&self.number, node.to_usize()) {
            Some(k) => {
                let mut k: usize = *k;
                proof {
                    assert(self.is_numbered(node));
                }
                loop
                    invariant
                        self.inv(),
                        1 <= k < self.vertex@.len(),
                        dominates(self.flow@, self.vertex@[1], dominator, node) == dominates(
                            self.flow@,
                            self.vertex@[1],
                            dominator,
                            self.vertex@[k as int],
                        ),
                    decreases k,
                {
                    proof {
                        self.lemma_chain(dominator, k as int);
                    }
                    if same_id(self.vertex[k], dominator) {
                        return true;
                    }
                    if k == 1 {
                        return false;
                    }
                    k = self.idom[k];
                }
            },
            None => {
                assert(!self.is_numbered(node));
                false
            },
        }
    }

    /// All the nodes that dominate `node`, from `node` up to the root, or `None` if `node`
    /// was not reached.
    pub fn dominator_set(&self, node: N) -> (set: Option<Vec<N>>)
        ensures
            set is Some <==> reaches(self.flow(), self.spec_root(), node),
            set matches Some(list) ==> {
                &&& list@.no_duplicates()
                &&& forall|d: N| #[trigger]
                    list@.contains(d) <==> dominates(self.flow(), self.spec_root(), d, node)
            },
    {
        proof {
            use_type_invariant(self);
            assert(self.is_numbered(node) <==> reaches(self.flow@, self.vertex@[1], node));
        }
        let mut k: usize = match fx::map_get(&self.number, node.to_usize()) {
            Some(k) => *k,
            None => {
                return None;
            },
        };
        let ghost (e, root) = (self.flow@, self.vertex@[1]);
        let mut list: Vec<N> = Vec::new();
        loop
            invariant
                self.inv(),
                e == self.flow@,
                root == self.vertex@[1],
                reaches(e, root, node),
                1 <= k < self.vertex@.len(),
                list@.no_duplicates(),
                forall|i: int|
                    #![trigger list@[i]]
                    0 <= i < list@.len() ==> self.is_numbered(list@[i]) && k < self.num(list@[i]),
                forall|d: N| #[trigger]
                    dominates(e, root, d, node) <==> list@.contains(d) || dominates(
                        e,
                        root,
                        d,
                        self.vertex@[k as int],
                    ),
            decreases k,
        {
            let ghost before = list@;
            list.push(self.vertex[k]);
            proof {
                let n = self.vertex@[k as int];
                assert(self.is_numbered(n));
                assert(!before.contains(n));
                assert(list@[before.len() as int] == n);
                assert forall|d: N| #[trigger] dominates(e, root, d, node) <==> list@.contains(d)
                    || (k >= 2 && dominates(
                    e,
                    root,
                    d,
                    self.vertex@[self.idom@[k as int] as int],
                )) by {
                    self.lemma_chain(d, k as int);
                    if before.contains(d) {
                        assert(list@[before.index_of(d)] == d);
                    }
                    if list@.contains(d) {
                        let i = list@.index_of(d);
                        if i < before.len() {
                            assert(before[i] == d);
                        }
                    }
                }
            }
            if k == 1 {
                return Some(list);
            }
            k = self.idom[k];
        }
    }

    /// The strict dominators of `y` dominate every predecessor of `y` that can be reached.
    proof fn lemma_idom_dominates_pred(&self, p: int, y: int)
        requires
            self.inv(),
            1 <= p < self.vertex@.len(),
            2 <= y < self.vertex@.len(),
            (self.flow@)(self.vertex@[p], self.vertex@[y]),
        ensures
            dominates(
                self.flow@,
                self.vertex@[1],
                self.vertex@[self.idom@[y] as int],
                self.vertex@[p],
            ),
    {
        assert(self.is_numbered(self.vertex@[p]));
        assert(immediately_dominates(
            self.flow@,
            self.vertex@[1],
            self.vertex@[self.idom@[y] as int],
            self.vertex@[y],
        ));
        lemma_strict_dominates_pred(
            self.flow@,
            self.vertex@[1],
            self.vertex@[self.idom@[y] as int],
            self.vertex@[p],
            self.vertex@[y],
        );
    }

    /// What dominates the immediate dominator of `y` is what strictly dominates `y`.
    proof fn lemma_above_idom(&self, x: int, y: int)
        requires
            self.inv(),
            1 <= x < self.vertex@.len(),
            1 <= y < self.vertex@.len(),
        ensures
            strictly_dominates(self.flow@, self.vertex@[1], self.vertex@[x], self.vertex@[y])
                <==> y >= 2 && dominates(
                self.flow@,
                self.vertex@[1],
                self.vertex@[x],
                self.vertex@[self.idom@[y] as int],
            ),
    {
        self.lemma_chain(self.vertex@[x], y);
        assert(self.num(self.vertex@[x]) == x);
        assert(self.num(self.vertex@[y]) == y);
        if y >= 2 {
            let i = self.idom@[y] as int;
            assert(self.num(self.vertex@[i]) == i);
            if dominates(self.flow@, self.vertex@[1], self.vertex@[x], self.vertex@[i]) {
                self.lemma_dominance_numbered(self.vertex@[x], self.vertex@[i]);
            }
        }
    }

    /// `list` holds nodes with numbers below `top`, in increasing order.
    spec fn lists_below(&self, list: Seq<N>, top: int) -> bool {
        &&& forall|i: int|
            #![trigger list[i]]
            0 <= i < list.len() ==> self.is_numbered(list[i]) && self.num(list[i]) < top
        &&& forall|i: int, j: int|
            0 <= i < j < list.len() ==> self.num(#[trigger] list[i]) < self.num(#[trigger] list[j])
    }

    /// The predecessor `p` of `y` puts `y` into the frontier of `x`.
    spec fn owed_by(&self, x: int, y: int, p: int) -> bool {
        &&& dominates(self.flow@, self.vertex@[1], self.vertex@[x], self.vertex@[p])
        &&& !strictly_dominates(self.flow@, self.vertex@[1], self.vertex@[x], self.vertex@[y])
    }

    /// `x` dominates `p` but not the node numbered `runner`.
    spec fn passed(&self, x: int, p: int, runner: int) -> bool {
        &&& dominates(self.flow@, self.vertex@[1], self.vertex@[x], self.vertex@[p])
        &&& !dominates(self.flow@, self.vertex@[1], self.vertex@[x], self.vertex@[runner])
    }

    /// Puts `y` into the frontiers into which its predecessor `p` brings it.
    #[verifier::rlimit(40)]
    fn note_frontier(&self, sets: &mut Vec<Vec<N>>, y: usize, p: usize)
        requires
            self.inv(),
            old(sets)@.len() == self.vertex@.len(),
            1 <= y < self.vertex@.len(),
            1 <= p < self.vertex@.len(),
            (self.flow@)(self.vertex@[p as int], self.vertex@[y as int]),
            forall|x: int|
                1 <= x < self.vertex@.len() ==> self.lists_below(#[trigger] old(sets)@[x]@, y + 1),
        ensures
            final(sets)@.len() == self.vertex@.len(),
            forall|x: int|
                1 <= x < self.vertex@.len() ==> self.lists_below(#[trigger] final(sets)@[x]@, y + 1),
            forall|x: int|
                1 <= x < self.vertex@.len() ==> (#[trigger] final(sets)@[x]@.contains(
                    self.vertex@[y as int],
                ) <==> old(sets)@[x]@.contains(self.vertex@[y as int]) || self.owed_by(
                    x,
                    y as int,
                    p as int,
                )),
            forall|x: int, n: N|
                1 <= x < self.vertex@.len() && n != self.vertex@[y as int] ==> (
                #[trigger] final(sets)@[x]@.contains(n) <==> old(sets)@[x]@.contains(n)),
    {
        let ghost (e, root) = (self.flow@, self.vertex@[1]);
        let ghost before = sets@;
        let ghost n = self.vertex@[y as int];
        let len: usize = self.vertex.len();
        let mut runner: usize = p;
        proof {
            assert(self.is_numbered(self.vertex@[p as int]));
            assert(self.is_numbered(n));
            lemma_dominance_reflexive(e, root, self.vertex@[p as int]);
            if y >= 2 {
                self.lemma_idom_dominates_pred(p as int, y as int);
            }
        }
        while runner != 0 && (y == 1 || runner != self.idom[y])
            invariant
                self.inv(),
                e == self.flow@,
                root == self.vertex@[1],
                len == self.vertex@.len(),
                1 <= y < len,
                1 <= p < len,
                0 <= runner < len,
                runner == 0 ==> y == 1,
                n == self.vertex@[y as int],
                self.is_numbered(n),
                before.len() == len,
                sets@.len() == len,
                runner >= 1 ==> dominates(e, root, self.vertex@[runner as int], self.vertex@[p as int]),
                y >= 2 ==> dominates(
                    e,
                    root,
                    self.vertex@[self.idom@[y as int] as int],
                    self.vertex@[runner as int],
                ),
                forall|x: int| 1 <= x < len ==> self.lists_below(#[trigger] sets@[x]@, y + 1),
                forall|x: int|
                    1 <= x < len ==> (#[trigger] sets@[x]@.contains(n) <==> before[x]@.contains(n)
                        || (if runner >= 1 {
                        self.passed(x, p as int, runner as int)
                    } else {
                        dominates(e, root, self.vertex@[x], self.vertex@[p as int])
                    })),
                forall|x: int, z: N|
                    1 <= x < len && z != n ==> (#[trigger] sets@[x]@.contains(z)
                        <==> before[x]@.contains(z)),
            decreases runner,
        {
            let ghost mid = sets@;
            let ghost r = runner as int;
            let ghost list = sets@[r]@;
            let node = self.vertex[y];
            assert(self.lists_below(list, y + 1));
            let count: usize = sets[runner].len();
            if count == 0 || !same_id(sets[runner][count - 1], node) {
                sets[runner].push(node);
            }
            proof {
                let after = sets@[r]@;
                assert(after == list || after == list.push(n));
                if after == list {
                    assert(list[list.len() - 1] == n);
                } else {
                    assert(after[list.len() as int] == n);
                    assert forall|i: int| 0 <= i < list.len() implies self.num(#[trigger] list[i]) < y by {
                        if i < list.len() - 1 {
                            assert(self.num(list[i]) < self.num(list[list.len() - 1]));
                        } else {
                            lemma_id_injective(list[i], n);
                            assert(self.is_numbered(list[i]));
                            assert(self.vertex@[self.num(list[i])] == list[i]);
                        }
                    }
                    assert(self.num(n) == y);
                }
                assert(self.lists_below(after, y + 1));
                assert forall|z: N| z != n implies (#[trigger] after.contains(z) <==> list.contains(z)) by {
                    if list.contains(z) {
                        assert(after[list.index_of(z)] == z);
                    }
                    if after.contains(z) {
                        assert(list[after.index_of(z)] == z);
                    }
                }
                assert forall|x: int| 1 <= x < len implies self.lists_below(#[trigger] sets@[x]@, y + 1) by {
                    assert(self.lists_below(mid[x]@, y + 1));
                }
                let next = self.idom@[r] as int;
                assert forall|x: int| 1 <= x < len implies (#[trigger] sets@[x]@.contains(n)
                    <==> before[x]@.contains(n) || (if r >= 2 {
                    self.passed(x, p as int, next)
                } else {
                    dominates(e, root, self.vertex@[x], self.vertex@[p as int])
                })) by {
                    self.lemma_chain(self.vertex@[x], r);
                    self.lemma_above_idom(x, r);
                    assert(self.num(self.vertex@[x]) == x);
                    assert(self.num(self.vertex@[r]) == r);
                    assert(mid[x]@.contains(n) <==> before[x]@.contains(n) || self.passed(
                        x,
                        p as int,
                        r,
                    ));
                }
                assert forall|x: int, z: N| 1 <= x < len && z != n implies (
                #[trigger] sets@[x]@.contains(z) <==> before[x]@.contains(z)) by {
                    assert(mid[x]@.contains(z) <==> before[x]@.contains(z));
                }
                if r >= 2 {
                    assert(self.is_numbered(self.vertex@[r]));
                    assert(immediately_dominates(e, root, self.vertex@[next], self.vertex@[r]));
                    lemma_dominance_transitive(
                        e,
                        root,
                        self.vertex@[next],
                        self.vertex@[r],
                        self.vertex@[p as int],
                    );
                    if y >= 2 {
                        self.lemma_chain(self.vertex@[self.idom@[y as int] as int], r);
                        assert(self.num(self.vertex@[self.idom@[y as int] as int]) == self.idom@[y as int]);
                        assert(self.num(self.vertex@[r]) == r);
                    }
                } else if y >= 2 {
                    self.lemma_chain(self.vertex@[self.idom@[y as int] as int], 1);
                    assert(self.num(self.vertex@[self.idom@[y as int] as int]) == self.idom@[y as int]);
                    assert(self.num(self.vertex@[1]) == 1);
                }
            }
            if runner == 1 {
                runner = 0;
            } else {
                runner = self.idom[runner];
            }
        }
        proof {
            assert forall|x: int| 1 <= x < len implies (#[trigger] sets@[x]@.contains(n)
                <==> before[x]@.contains(n) || self.owed_by(x, y as int, p as int)) by {
                self.lemma_above_idom(x, y as int);
            }
        }
    }

    /// The dominance frontier of every node that was reached, by the index of the node.
    ///
    /// The frontier of `n` holds the nodes `y` such that `n` dominates a predecessor of
    /// `y` but does not strictly dominate `y`. It is where values that `n` defines meet
    /// others.
    #[verifier::rlimit(40)]
    pub fn dominator_frontier(&self) -> (frontier: FxHashMap<usize, Vec<N>>)
        ensures
            forall|n: N|
                frontier@.contains_key(#[trigger] n.spec_index()) <==> reaches(
                    self.flow(),
                    self.spec_root(),
                    n,
                ),
            forall|n: N|
                reaches(self.flow(), self.spec_root(), n) ==> (#[trigger] frontier@[n.spec_index()])@.no_duplicates(),
            forall|n: N, y: N|
                reaches(self.flow(), self.spec_root(), n) ==> (#[trigger] frontier@[n.spec_index()]@.contains(
                    y,
                ) <==> in_frontier(self.flow(), self.spec_root(), n, y)),
    {
        proof {
            use_type_invariant(self);
        }
        let ghost (e, root) = (self.flow@, self.vertex@[1]);
        let len: usize = self.vertex.len();
        let mut sets: Vec<Vec<N>> = Vec::new();
        for i in 0..len
            invariant
                sets@.len() == i,
                forall|j: int| 0 <= j < i ==> (#[trigger] sets@[j])@.len() == 0,
        {
            sets.push(Vec::new());
        }
        for y in 1..len
            invariant
                self.inv(),
                len == self.vertex@.len(),
                e == self.flow@,
                root == self.vertex@[1],
                sets@.len() == len,
                forall|x: int, z: int|
                    #![trigger sets@[x]@.contains(self.vertex@[z])]
                    1 <= x < len && 1 <= z < len ==> (sets@[x]@.contains(self.vertex@[z]) <==> z < y
                        && in_frontier(e, root, self.vertex@[x], self.vertex@[z])),
                forall|x: int| 1 <= x < len ==> self.lists_below(#[trigger] sets@[x]@, y as int),
        {
            let preds = &self.pred[y];
            let ghost before = sets@;
            let ghost n = self.vertex@[y as int];
            proof {
                assert(self.num(n) == y);
                assert forall|x: int| 1 <= x < len implies self.lists_below(#[trigger] sets@[x]@, y + 1) by {
                    assert(self.lists_below(before[x]@, y as int));
                }
            }
            for j in 0..preds.len()
                invariant
                    self.inv(),
                    len == self.vertex@.len(),
                    e == self.flow@,
                    root == self.vertex@[1],
                    1 <= y < len,
                    n == self.vertex@[y as int],
                    preds@ == self.pred@[y as int]@,
                    sets@.len() == len,
                    before.len() == len,
                    forall|x: int| 1 <= x < len ==> self.lists_below(#[trigger] sets@[x]@, y + 1),
                    forall|x: int, z: N|
                        1 <= x < len && z != n ==> (#[trigger] sets@[x]@.contains(z)
                            <==> before[x]@.contains(z)),
                    forall|x: int|
                        1 <= x < len ==> (#[trigger] sets@[x]@.contains(n) <==> before[x]@.contains(n)
                            || exists|k: int|
                            0 <= k < j && self.owed_by(x, y as int, #[trigger] preds@[k] as int)),
            {
                let ghost mid = sets@;
                let p: usize = preds[j];
                assert(self.pred@[y as int]@[j as int] == p);
                self.note_frontier(&mut sets, y, p);
                proof {
                    assert forall|x: int, z: N| 1 <= x < len && z != n implies (
                    #[trigger] sets@[x]@.contains(z) <==> before[x]@.contains(z)) by {
                        assert(mid[x]@.contains(z) <==> before[x]@.contains(z));
                    }
                    assert forall|x: int| 1 <= x < len implies (#[trigger] sets@[x]@.contains(n)
                        <==> before[x]@.contains(n) || exists|k: int|
                        0 <= k < j + 1 && self.owed_by(x, y as int, #[trigger] preds@[k] as int)) by {
                        assert(mid[x]@.contains(n) <==> before[x]@.contains(n) || exists|k: int|
                            0 <= k < j && self.owed_by(x, y as int, #[trigger] preds@[k] as int));
                        assert(preds@[j as int] == p);
                    }
                }
            }
            proof {
                assert forall|x: int, z: int|
                    #![trigger sets@[x]@.contains(self.vertex@[z])]
                    1 <= x < len && 1 <= z < len implies (sets@[x]@.contains(self.vertex@[z]) <==> z
                    < y + 1 && in_frontier(e, root, self.vertex@[x], self.vertex@[z])) by {
                    assert(self.num(self.vertex@[z]) == z);
                    assert(before[x]@.contains(self.vertex@[z]) <==> z < y && in_frontier(
                        e,
                        root,
                        self.vertex@[x],
                        self.vertex@[z],
                    ));
                    if z == y {
                        if in_frontier(e, root, self.vertex@[x], n) {
                            let p = choose|p: N| #[trigger]
                                dominates(e, root, self.vertex@[x], p) && e(p, n);
                            self.lemma_dominance_numbered(self.vertex@[x], p);
                            let v = self.num(p);
                            assert(e(self.vertex@[v], self.vertex@[y as int]));
                            let k = preds@.index_of(v as usize);
                            assert(self.owed_by(x, y as int, preds@[k] as int));
                        }
                        if exists|k: int|
                            0 <= k < preds@.len() && self.owed_by(
                                x,
                                y as int,
                                #[trigger] preds@[k] as int,
                            ) {
                            let k = choose|k: int|
                                0 <= k < preds@.len() && self.owed_by(
                                    x,
                                    y as int,
                                    #[trigger] preds@[k] as int,
                                );
                            let p = self.vertex@[self.pred@[y as int]@[k] as int];
                            assert(dominates(e, root, self.vertex@[x], p) && e(p, n));
                        }
                    }
                }
            }
        }
        let mut frontier: FxHashMap<usize, Vec<N>> = fx::map_new();
        let ghost done = sets@;
        let mut x: usize = len;
        while x > 1
            invariant
                self.inv(),
                1 <= x <= len,
                len == self.vertex@.len(),
                done.len() == len,
                sets@ == done.subrange(0, x as int),
                forall|n: N|
                    frontier@.contains_key(#[trigger] n.spec_index()) <==> self.is_numbered(n)
                        && self.num(n) >= x,
                forall|n: N|
                    self.is_numbered(n) && self.num(n) >= x ==> #[trigger] frontier@[n.spec_index()]
                        == done[self.num(n)],
            decreases x,
        {
            x = x - 1;
            let list = sets.pop().unwrap();
            let ghost frontier0 = frontier@;
            let ghost node = self.vertex@[x as int];
            fx::map_insert(&mut frontier, self.vertex[x].to_usize(), list);
            proof {
                assert(self.is_numbered(node) && self.num(node) == x);
                assert forall|n: N| frontier@.contains_key(#[trigger] n.spec_index())
                    <==> self.is_numbered(n) && self.num(n) >= x by {
                    lemma_id_injective(n, node);
                    assert(frontier0.contains_key(n.spec_index()) <==> self.is_numbered(n)
                        && self.num(n) >= x + 1);
                    if self.is_numbered(n) && self.num(n) == x {
                        assert(self.vertex@[self.num(n)] == n);
                    }
                }
                assert forall|n: N| self.is_numbered(n) && self.num(n) >= x implies
                    #[trigger] frontier@[n.spec_index()] == done[self.num(n)] by {
                    lemma_id_injective(n, node);
                    if n != node {
                        assert(self.vertex@[self.num(n)] == n);
                        assert(frontier0[n.spec_index()] == done[self.num(n)]);
                    }
                }
            }
        }
        proof {
            assert forall|n: N| frontier@.contains_key(#[trigger] n.spec_index()) <==> reaches(
                e,
                root,
                n,
            ) by {
                assert(self.is_numbered(n) <==> reaches(e, root, n));
            }
            assert forall|n: N| reaches(e, root, n) implies (#[trigger] frontier@[n.spec_index()])@.no_duplicates() by {
                assert(self.is_numbered(n));
                assert(self.lists_below(done[self.num(n)]@, len as int));
            }
            assert forall|n: N, y: N| reaches(e, root, n) implies (
            #[trigger] frontier@[n.spec_index()]@.contains(y) <==> in_frontier(e, root, n, y)) by {
                assert(self.is_numbered(n));
                let x = self.num(n);
                let list = done[x]@;
                assert(self.vertex@[x] == n);
                assert(self.lists_below(list, len as int));
                if list.contains(y) {
                    let i = list.index_of(y);
                    assert(self.is_numbered(list[i]));
                    assert(self.vertex@[self.num(y)] == y);
                    assert(list.contains(self.vertex@[self.num(y)]));
                }
                if in_frontier(e, root, n, y) {
                    let p = choose|p: N| #[trigger] dominates(e, root, n, p) && e(p, y);
                    let q = choose|q: Seq<N>| walk_between(e, q, root, p);
                    lemma_extend(e, q, root, p, y);
                    assert(self.is_numbered(y));
                    assert(list.contains(self.vertex@[self.num(y)]));
                }
            }
        }
        frontier
    }
}

/// Computes the dominator tree for all nodes reachable from `root`.
///
/// Runs the Lengauer-Tarjan algorithm on a depth-first numbering of the nodes.
pub fn compute_dominators<C: Cfg>(graph: &C, root: C::NodeId) -> (tree: DominatorTree<C::NodeId>)
    requires
        graph.is_valid(),
    ensures
        tree.flow() == flow(graph),
        tree.spec_root() == root,
{
    let numbering = number_depth_first(graph, root);
    let idom = run_lengauer_tarjan(Ghost(graph), Ghost(root), &numbering);
    let ghost e = flow(graph);
    proof {
        numbering.lemma_depth_first(graph, root);
        let len = numbering.vertex@.len();
        assert forall|n: C::NodeId| #[trigger] numbering.is_numbered(n) <==> reaches(e, root, n) by {
            numbering.lemma_numbered_is_reachable(graph, root, n);
        }
        assert forall|w: int| 2 <= w < len implies 1 <= (#[trigger] idom@[w]) < w
            && immediately_dominates(
            e,
            root,
            numbering.vertex@[idom@[w] as int],
            numbering.vertex@[w],
        ) by {
            numbering.lemma_tree_idom(graph, root, idom@[w] as int, w);
        }
        assert forall|w: int, p: int|
            1 <= w < len && 0 <= p < numbering.pred@[w]@.len() implies 1
            <= #[trigger] numbering.pred@[w]@[p] < len && e(
            numbering.vertex@[numbering.pred@[w]@[p] as int],
            numbering.vertex@[w],
        ) by {
            assert(numbering.edge(graph, numbering.pred@[w]@[p] as int, w));
        }
        assert forall|v: int, w: int|
            1 <= v < len && 1 <= w < len && #[trigger] e(
                numbering.vertex@[v],
                numbering.vertex@[w],
            ) implies numbering.pred@[w]@.contains(v as usize) by {
            assert(numbering.steps(graph)(v, w));
        }
        assert forall|i: int| 1 <= i < len implies numbering.is_numbered(
            #[trigger] numbering.vertex@[i],
        ) && numbering.number@[numbering.vertex@[i].spec_index()] == i by {
            assert(numbering.has_number(numbering.vertex@[i], i));
        }
        let tree = DominatorTree {
            number: numbering.number,
            vertex: numbering.vertex,
            idom,
            pred: numbering.pred,
            flow: Ghost(e),
        };
        assert forall|n: C::NodeId| #[trigger] tree.is_numbered(n) implies 1 <= tree.num(n) < len
            && tree.vertex@[tree.num(n)] == n by {
            assert(numbering.is_numbered(n));
        }
        assert forall|n: C::NodeId| #[trigger] tree.is_numbered(n) <==> reaches(e, root, n) by {
            assert(numbering.is_numbered(n) <==> reaches(e, root, n));
        }
        assert(tree.inv());
    }
    DominatorTree {
        number: numbering.number,
        vertex: numbering.vertex,
        idom,
        pred: numbering.pred,
        flow: Ghost(e),
    }
}

} // verus!
