//! What a force-directed layout starts from.
//!
//! Physics uses undirected springs; edge direction only seeds the vertical position of
//! nodes by their distance from an entrypoint.
use crate::graph::owning::{is_linked, OwningGraph};
use crate::graph::walk::{
    is_walk, lemma_extend, lemma_part, lemma_trivial_walk, reaches, step_at, walk_between,
};
use crate::graph::Graph;
use crate::indexing::{index_ids, position};
use crate::registry::Identifier;
use vstd::prelude::*;

verus! {

#[derive(Clone, Copy, Debug, PartialEq, Eq, Structural)]
pub enum EnergyAttraction {
    /// Hooke-style spring attraction: farther connected nodes pull harder.
    Spring,
    /// LinLog-style attraction: connected nodes pull with near-constant force.
    LinLog,
}

impl Default for EnergyAttraction {
    fn default() -> (attraction: Self)
        ensures
            attraction == EnergyAttraction::Spring,
    {
        EnergyAttraction::Spring
    }
}

#[derive(Debug, Clone, Copy, PartialEq, Eq, Structural)]
pub enum EnergyLayoutError {
    EmptyGraph,
    TooManyNodes { count: usize, max: usize },
}

/// Whether so many nodes can be laid out under a limit.
pub open spec fn size_fault(count: usize, max: usize) -> Option<EnergyLayoutError> {
    if count == 0 {
        Some(EnergyLayoutError::EmptyGraph)
    } else if count > max {
        Some(EnergyLayoutError::TooManyNodes { count, max })
    } else {
        None
    }
}

/// Checks the number of nodes against a limit.
pub fn check_size(count: usize, max: usize) -> (result: Result<(), EnergyLayoutError>)
    ensures
        match result {
            Ok(_) => size_fault(count, max) is None,
            Err(error) => size_fault(count, max) == Some(error),
        },
{
    if count == 0 {
        Err(EnergyLayoutError::EmptyGraph)
    } else if count > max {
        Err(EnergyLayoutError::TooManyNodes { count, max })
    } else {
        Ok(())
    }
}

/// A spring between two nodes, given by their positions in the list of nodes.
#[derive(Debug)]
pub struct Spring<EdgeId> {
    pub id: EdgeId,
    pub source: usize,
    pub target: usize,
}

/// The springs for those of a list of edges that are no loops.
pub open spec fn springs_of<G: Graph>(
    graph: &G,
    ids: Seq<G::NodeId>,
    list: Seq<G::EdgeId>,
) -> Seq<Spring<G::EdgeId>>
    decreases list.len(),
{
    if list.len() == 0 {
        Seq::empty()
    } else {
        let before = springs_of(graph, ids, list.drop_last());
        let e = list.last();
        if graph.spec_from(e) == graph.spec_to(e) {
            before
        } else {
            before.push(
                Spring {
                    id: e,
                    source: ids.index_of(graph.spec_from(e)) as usize,
                    target: ids.index_of(graph.spec_to(e)) as usize,
                },
            )
        }
    }
}

/// The steps over springs, from source to target.
pub open spec fn spring_steps<E>(springs: Seq<Spring<E>>) -> spec_fn(int, int) -> bool {
    |a: int, b: int|
        exists|i: int|
            #![trigger springs[i]]
            0 <= i < springs.len() && springs[i].source == a && springs[i].target == b
}

/// A walk of `d` steps leads from `root` to `v`.
pub open spec fn reaches_in<E>(springs: Seq<Spring<E>>, root: int, v: int, d: int) -> bool {
    exists|p: Seq<int>| walk_between(spring_steps(springs), p, root, v) && p.len() == d + 1
}

/// `d` is the number of steps on the shortest walk from `root` to `v`.
pub open spec fn is_depth<E>(springs: Seq<Spring<E>>, root: int, v: int, d: int) -> bool {
    &&& reaches_in(springs, root, v, d)
    &&& forall|k: int| 0 <= k < d ==> !#[trigger] reaches_in(springs, root, v, k)
}

/// The depths of all nodes: the lengths of shortest walks, and nothing for nodes that
/// cannot be reached.
pub open spec fn are_depths<E>(springs: Seq<Spring<E>>, root: int, depth: Seq<Option<usize>>) -> bool {
    forall|v: int|
        0 <= v < depth.len() ==> match #[trigger] depth[v] {
            Some(d) => is_depth(springs, root, v, d as int),
            None => !reaches(spring_steps(springs), root, v),
        }
}

/// A walk ends with a step from a shorter walk.
proof fn lemma_last_step<E>(springs: Seq<Spring<E>>, root: int, v: int, d: int) -> (u: int)
    requires
        d > 0,
        reaches_in(springs, root, v, d),
    ensures
        reaches_in(springs, root, u, d - 1),
        spring_steps(springs)(u, v),
{
    let e = spring_steps(springs);
    let p = choose|p: Seq<int>| walk_between(e, p, root, v) && p.len() == d + 1;
    lemma_part(e, p, 0, d - 1);
    assert(step_at(e, p, d - 1));
    assert(p.subrange(0, d).len() == d);
    p[d - 1]
}

proof fn lemma_next_step<E>(springs: Seq<Spring<E>>, root: int, u: int, v: int, d: int)
    requires
        reaches_in(springs, root, u, d),
        spring_steps(springs)(u, v),
    ensures
        reaches_in(springs, root, v, d + 1),
{
    let e = spring_steps(springs);
    let p = choose|p: Seq<int>| walk_between(e, p, root, u) && p.len() == d + 1;
    lemma_extend(e, p, root, u, v);
    assert(p.push(v).len() == d + 2);
}

/// What has been settled after `level` rounds: all depths up to `level`, and no others.
pub open spec fn is_settled_to<E>(
    springs: Seq<Spring<E>>,
    root: int,
    depth: Seq<Option<usize>>,
    level: int,
) -> bool {
    forall|v: int|
        0 <= v < depth.len() ==> match #[trigger] depth[v] {
            Some(d) => d <= level && is_depth(springs, root, v, d as int),
            None => forall|k: int| 0 <= k <= level ==> !#[trigger] reaches_in(springs, root, v, k),
        }
}

/// The distance of each node from a root along the direction of the springs.
#[verifier::rlimit(40)]
pub fn depths<E: Copy>(n: usize, springs: &Vec<Spring<E>>, root: usize) -> (depth: Vec<Option<usize>>)
    requires
        root < n,
        forall|i: int|
            #![trigger springs@[i]]
            0 <= i < springs@.len() ==> springs@[i].source < n && springs@[i].target < n,
    ensures
        depth@.len() == n,
        are_depths(springs@, root as int, depth@),
{
    let ghost e = spring_steps(springs@);
    let mut depth: Vec<Option<usize>> = Vec::new();
    for v in 0..n
        invariant
            depth@.len() == v,
            forall|w: int| 0 <= w < v ==> #[trigger] depth@[w] is None,
    {
        depth.push(None);
    }
    depth[root] = Some(0);
    proof {
        lemma_trivial_walk(e, root as int);
        assert(reaches_in(springs@, root as int, root as int, 0)) by {
            assert(seq![root as int].len() == 1);
        }
        assert forall|v: int| 0 <= v < n && v != root implies !#[trigger] reaches_in(
            springs@,
            root as int,
            v,
            0,
        ) by {
            if reaches_in(springs@, root as int, v, 0) {
                let p = choose|p: Seq<int>|
                    walk_between(e, p, root as int, v) && p.len() == 0 + 1;
                assert(p[0] == root && p[p.len() - 1] == v);
            }
        }
        assert(is_settled_to(springs@, root as int, depth@, 0));
    }
    let mut level: usize = 0;
    let mut grew: bool = true;
    while grew && level < n
        invariant
            root < n,
            level <= n,
            e == spring_steps(springs@),
            forall|i: int|
                #![trigger springs@[i]]
                0 <= i < springs@.len() ==> springs@[i].source < n && springs@[i].target < n,
            depth@.len() == n,
            is_settled_to(springs@, root as int, depth@, level as int),
            !grew ==> no_depth(depth@, level as int),
        decreases n - level,
    {
        let ghost before = depth@;
        grew = false;
        for i in 0..springs.len()
            invariant
                root < n,
                level < n,
                e == spring_steps(springs@),
                forall|i: int|
                    #![trigger springs@[i]]
                    0 <= i < springs@.len() ==> springs@[i].source < n && springs@[i].target < n,
                before.len() == n,
                depth@.len() == n,
                is_settled_to(springs@, root as int, before, level as int),
                forall|v: int|
                    0 <= v < n && before[v] is Some ==> #[trigger] depth@[v] == before[v],
                forall|v: int|
                    0 <= v < n && before[v] is None ==> match #[trigger] depth@[v] {
                        Some(d) => d == level + 1 && reaches_in(
                            springs@,
                            root as int,
                            v,
                            level + 1,
                        ),
                        None => forall|k: int|
                            #![trigger springs@[k]]
                            0 <= k < i && springs@[k].target == v
                                ==> before[springs@[k].source as int] != Some(level),
                    },
                !grew ==> depth@ == before,
        {
            let (a, b): (usize, usize) = (springs[i].source, springs[i].target);
            assert(springs@[i as int].source < n && springs@[i as int].target < n);
            let at_level = match depth[a] {
                Some(d) => d == level,
                None => false,
            };
            if at_level {
                proof {
                    if before[a as int] is None {
                        assert(depth@[a as int] == Some(level));
                    }
                    assert(before[a as int] == Some(level));
                    assert(is_depth(springs@, root as int, a as int, level as int));
                    assert(e(a as int, b as int));
                    lemma_next_step(springs@, root as int, a as int, b as int, level as int);
                }
                if depth[b].is_none() {
                    depth[b] = Some(level + 1);
                    grew = true;
                }
            } else {
                assert(before[a as int] != Some(level)) by {
                    if before[a as int] == Some(level) {
                        assert(depth@[a as int] == before[a as int]);
                    }
                }
            }
        }
        proof {
            assert forall|v: int| 0 <= v < n implies match #[trigger] depth@[v] {
                Some(d) => d <= level + 1 && is_depth(springs@, root as int, v, d as int),
                None => forall|k: int|
                    0 <= k <= level + 1 ==> !#[trigger] reaches_in(springs@, root as int, v, k),
            } by {
                if before[v] is None {
                    assert(forall|k: int|
                        0 <= k <= level ==> !#[trigger] reaches_in(springs@, root as int, v, k));
                    if depth@[v] is None {
                        if reaches_in(springs@, root as int, v, level + 1) {
                            let u = lemma_last_step(springs@, root as int, v, level + 1);
                            let k = choose|k: int|
                                #![trigger springs@[k]]
                                0 <= k < springs@.len() && springs@[k].source == u
                                    && springs@[k].target == v;
                            assert(springs@[k].source < n);
                            assert(before[u] != Some(level));
                            match before[u] {
                                Some(d) => {
                                    assert(is_depth(springs@, root as int, u, d as int));
                                    if d < level {
                                        lemma_next_step(springs@, root as int, u, v, d as int);
                                        assert(reaches_in(springs@, root as int, v, d + 1));
                                    }
                                },
                                None => {
                                    assert(reaches_in(springs@, root as int, u, level as int));
                                },
                            }
                        }
                    }
                } else {
                    assert(depth@[v] == before[v]);
                }
            }
            if !grew {
                assert(no_depth(depth@, level + 1)) by {
                    assert forall|v: int| 0 <= v < depth@.len() implies #[trigger] depth@[v] != Some(
                        (level + 1) as usize,
                    ) by {
                        assert(before[v] is Some ==> before[v]->0 <= level);
                    }
                }
            }
        }
        level = level + 1;
    }
    proof {
        assert forall|v: int| 0 <= v < depth@.len() implies match #[trigger] depth@[v] {
            Some(d) => is_depth(springs@, root as int, v, d as int),
            None => !reaches(e, root as int, v),
        } by {
            if depth@[v] is None && reaches(e, root as int, v) {
                let p = choose|p: Seq<int>| walk_between(e, p, root as int, v);
                if !grew {
                    // Nothing leads from what has been reached to anything else.
                    lemma_nothing_beyond(springs@, root as int, depth@, level as int, p, p.len() - 1);
                } else {
                    let q = crate::graph::walk::lemma_simple_walk(e, p, root as int, v);
                    assert forall|i: int| 0 <= i < q.len() implies 0 <= #[trigger] q[i] < n by {
                        if i > 0 {
                            assert(step_at(e, q, i - 1));
                            assert(e(q[i - 1], q[i]));
                            let k = choose|k: int|
                                #![trigger springs@[k]]
                                0 <= k < springs@.len() && springs@[k].source == q[i - 1]
                                    && springs@[k].target == q[i];
                            assert(springs@[k].target < n);
                        }
                    }
                    crate::counting::lemma_distinct_in_range(q, 0, n as int);
                    assert(reaches_in(springs@, root as int, v, q.len() - 1));
                }
            }
        }
    }
    depth
}

/// No node has this depth.
pub open spec fn no_depth(depth: Seq<Option<usize>>, level: int) -> bool {
    forall|v: int| 0 <= v < depth.len() ==> #[trigger] depth[v] != Some(level as usize)
}

/// Where no node has a depth, none is reached beyond it.
proof fn lemma_nothing_beyond<E>(
    springs: Seq<Spring<E>>,
    root: int,
    depth: Seq<Option<usize>>,
    level: int,
    p: Seq<int>,
    i: int,
)
    requires
        is_settled_to(springs, root, depth, level),
        no_depth(depth, level),
        0 <= level <= usize::MAX,
        is_walk(spring_steps(springs), p),
        p[0] == root,
        0 <= root < depth.len(),
        depth[root] is Some,
        0 <= i < p.len(),
        forall|i: int|
            #![trigger springs[i]]
            0 <= i < springs.len() ==> springs[i].source < depth.len() && springs[i].target
                < depth.len(),
    ensures
        0 <= p[i] < depth.len(),
        depth[p[i]] is Some,
    decreases i,
{
    if i > 0 {
        lemma_nothing_beyond(springs, root, depth, level, p, i - 1);
        let (u, v) = (p[i - 1], p[i]);
        assert(step_at(spring_steps(springs), p, i - 1));
        assert(spring_steps(springs)(u, v));
        let k = choose|k: int|
            #![trigger springs[k]]
            0 <= k < springs.len() && springs[k].source == u && springs[k].target == v;
        assert(springs[k].target < depth.len());
        let d = depth[u]->0;
        assert(d <= level && is_depth(springs, root, u, d as int));
        assert(depth[u] != Some(level as usize));
        lemma_next_step(springs, root, u, v, d as int);
        if depth[v] is None {
            assert(!reaches_in(springs, root, v, d + 1));
        }
    }
}

/// What a force-directed layout starts from: the nodes in the order of their indices, the
/// springs between them, and the depths below an entrypoint, if there is one.
pub struct EnergyPlan<NodeId, EdgeId> {
    pub ids: Vec<NodeId>,
    pub springs: Vec<Spring<EdgeId>>,
    pub depth: Option<Vec<Option<usize>>>,
}

/// Plans a force-directed layout. An entrypoint that is no node counts as none.
pub fn plan_energy<NodeId: Identifier, EdgeId: Identifier, ND, ED>(
    graph: &OwningGraph<NodeId, EdgeId, ND, ED>,
    root: Option<NodeId>,
    max_nodes: usize,
) -> (result: Result<EnergyPlan<NodeId, EdgeId>, EnergyLayoutError>)
    requires
        graph.wf(),
        is_linked(graph.node_map(), graph.edge_map()),
    ensures
        match result {
            Ok(plan) => {
                &&& size_fault(graph.spec_nodes().len() as usize, max_nodes) is None
                &&& plan.ids@ == graph.spec_nodes()
                &&& plan.springs@ == springs_of(graph, graph.spec_nodes(), graph.spec_edges())
                &&& match (plan.depth, root) {
                    (Some(depth), Some(root)) => {
                        &&& graph.spec_nodes().contains(root)
                        &&& depth@.len() == plan.ids@.len()
                        &&& are_depths(
                            plan.springs@,
                            graph.spec_nodes().index_of(root),
                            depth@,
                        )
                    },
                    (None, Some(root)) => !graph.spec_nodes().contains(root),
                    (None, None) => true,
                    (Some(_), None) => false,
                }
            },
            Err(error) => size_fault(graph.spec_nodes().len() as usize, max_nodes) == Some(error),
        },
{
    let ids = graph.node_ids();
    match check_size(ids.len(), max_nodes) {
        Ok(_) => {},
        Err(error) => {
            return Err(error);
        },
    }
    proof {
        graph.lemma_members();
    }
    let index = index_ids(&ids);
    let list = graph.edge_ids();
    let mut springs: Vec<Spring<EdgeId>> = Vec::new();
    for k in 0..list.len()
        invariant
            graph.wf(),
            is_linked(graph.node_map(), graph.edge_map()),
            ids@ == graph.spec_nodes(),
            list@ == graph.spec_edges(),
            crate::indexing::numbers_list(index@, ids@),
            springs@ == springs_of(graph, ids@, list@.take(k as int)),
            forall|i: int|
                #![trigger springs@[i]]
                0 <= i < springs@.len() ==> springs@[i].source < ids@.len() && springs@[i].target
                    < ids@.len(),
    {
        let e = list[k];
        proof {
            graph.lemma_members();
            assert(graph.spec_edges().contains(e));
            assert(graph.edge_map().contains_key(e));
            assert(list@.take(k + 1).drop_last() =~= list@.take(k as int));
            assert(graph.spec_nodes().contains(graph.spec_from(e)));
            assert(graph.spec_nodes().contains(graph.spec_to(e)));
        }
        let (from, to) = (graph.source(e), graph.target(e));
        if !crate::registry::same_id(from, to) {
            let a: usize = position(&index, Ghost(ids@), from).unwrap();
            let b: usize = position(&index, Ghost(ids@), to).unwrap();
            proof {
                assert(ids@.index_of(from) == a);
                assert(ids@.index_of(to) == b);
            }
            springs.push(Spring { id: e, source: a, target: b });
        }
    }
    assert(list@.take(list@.len() as int) =~= list@);
    let mut depth: Option<Vec<Option<usize>>> = None;
    if let Some(root) = root {
        if let Some(at) = position(&index, Ghost(ids@), root) {
            proof {
                assert(ids@.index_of(root) == at);
            }
            depth = Some(depths(ids.len(), &springs, at));
        }
    }
    Ok(EnergyPlan { ids, springs, depth })
}

/// The springs are those of the edges that are no loops, in their order, each between the
/// places of the two ends of its edge.
pub proof fn law_springs_join_the_ends_of_edges<G: Graph>(
    graph: &G,
    ids: Seq<G::NodeId>,
    list: Seq<G::EdgeId>,
)
    requires
        ids.len() <= usize::MAX,
        forall|k: int|
            #![trigger list[k]]
            0 <= k < list.len() ==> ids.contains(graph.spec_from(list[k])) && ids.contains(
                graph.spec_to(list[k]),
            ),
    ensures
        ({
            let springs = springs_of(graph, ids, list);
            &&& springs.len() <= list.len()
            &&& forall|j: int|
                #![trigger springs[j]]
                0 <= j < springs.len() ==> {
                    let s = springs[j];
                    &&& list.contains(s.id)
                    &&& s.source < ids.len() && s.target < ids.len()
                    &&& ids[s.source as int] == graph.spec_from(s.id)
                    &&& ids[s.target as int] == graph.spec_to(s.id)
                    &&& graph.spec_from(s.id) != graph.spec_to(s.id)
                }
            &&& forall|k: int|
                #![trigger list[k]]
                0 <= k < list.len() && graph.spec_from(list[k]) != graph.spec_to(list[k])
                    ==> exists|j: int|
                    #![trigger springs[j]]
                    0 <= j < springs.len() && springs[j].id == list[k]
        }),
    decreases list.len(),
{
    if list.len() > 0 {
        let front = list.drop_last();
        let e = list.last();
        assert(list[list.len() - 1] == e);
        assert forall|k: int|
            #![trigger front[k]]
            0 <= k < front.len() implies ids.contains(graph.spec_from(front[k])) && ids.contains(
            graph.spec_to(front[k]),
        ) by {
            assert(list[k] == front[k]);
        }
        law_springs_join_the_ends_of_edges(graph, ids, front);
        let before = springs_of(graph, ids, front);
        let springs = springs_of(graph, ids, list);
        assert forall|j: int| #![trigger springs[j]] 0 <= j < springs.len() implies {
            let s = springs[j];
            &&& list.contains(s.id)
            &&& s.source < ids.len() && s.target < ids.len()
            &&& ids[s.source as int] == graph.spec_from(s.id)
            &&& ids[s.target as int] == graph.spec_to(s.id)
            &&& graph.spec_from(s.id) != graph.spec_to(s.id)
        } by {
            if j < before.len() {
                assert(springs[j] == before[j]);
                let k = front.index_of(before[j].id);
                assert(list[k] == before[j].id);
            } else {
                let (a, b) = (graph.spec_from(e), graph.spec_to(e));
                assert(ids[ids.index_of(a)] == a);
                assert(ids[ids.index_of(b)] == b);
            }
        }
        assert forall|k: int|
            #![trigger list[k]]
            0 <= k < list.len() && graph.spec_from(list[k]) != graph.spec_to(
                list[k],
            ) implies exists|j: int|
            #![trigger springs[j]]
            0 <= j < springs.len() && springs[j].id == list[k] by {
            if k < front.len() {
                assert(front[k] == list[k]);
                let j = choose|j: int|
                    #![trigger before[j]]
                    0 <= j < before.len() && before[j].id == front[k];
                assert(springs[j] == before[j]);
            } else {
                assert(springs[before.len() as int].id == e);
            }
        }
    }
}

} // verus!
