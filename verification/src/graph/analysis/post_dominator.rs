//! Post-dominator analysis for directed graphs.
//!
//! A node `p` post-dominates `n` if every walk from `n` to an exit passes through
//! `p`. A node without successors ends a walk as an exit does.
//!
//! The sets are computed as the fixed point of an iterative data-flow analysis.
use crate::counting::{count_true, lemma_count_shrinks};
use crate::fx;
use crate::graph::walk::{is_walk, lemma_part, step_at};
use crate::graph::Cfg;
use crate::indexing::numbers_list;
use crate::registry::{lemma_id_injective, Identifier};
use rustc_hash::{FxHashMap, FxHashSet};
use vstd::prelude::*;

verus! {

/// `w` is a walk from `a` that cannot be continued.
pub open spec fn leaves<N>(e: spec_fn(N, N) -> bool, w: Seq<N>, a: N) -> bool {
    is_walk(e, w) && w[0] == a && forall|b: N| !#[trigger] e(w[w.len() - 1], b)
}

/// Every walk from `n` to an end passes through `p`.
pub open spec fn postdominates<N>(e: spec_fn(N, N) -> bool, p: N, n: N) -> bool {
    forall|w: Seq<N>| #[trigger] leaves(e, w, n) ==> w.contains(p)
}

/// The steps of the lists `succ`, for nodes that are positions in it.
spec fn listed(succ: Seq<Vec<usize>>) -> spec_fn(int, int) -> bool {
    |a: int, b: int| 0 <= a < succ.len() && 0 <= b < succ.len() && succ[a]@.contains(b as usize)
}

/// The data-flow equation: what post-dominates all the successors, and the node itself.
spec fn meets(succ: Seq<Vec<usize>>, sets: Seq<Vec<bool>>, a: int, p: int) -> bool {
    p == a || (succ[a]@.len() > 0 && forall|k: int|
        0 <= k < succ[a]@.len() ==> sets[#[trigger] succ[a]@[k] as int]@[p])
}

spec fn well_shaped(succ: Seq<Vec<usize>>, sets: Seq<Vec<bool>>) -> bool {
    &&& succ.len() <= usize::MAX
    &&& sets.len() == succ.len()
    &&& forall|a: int| 0 <= a < sets.len() ==> (#[trigger] sets[a])@.len() == succ.len()
    &&& forall|a: int, k: int|
        0 <= a < succ.len() && 0 <= k < succ[a]@.len() ==> (#[trigger] succ[a]@[k]) < succ.len()
}

/// The sets hold at least what post-dominates, and no set grows by its equation.
spec fn shrinking(succ: Seq<Vec<usize>>, sets: Seq<Vec<bool>>) -> bool {
    &&& well_shaped(succ, sets)
    &&& forall|a: int, p: int|
        0 <= a < succ.len() && 0 <= p < succ.len() && postdominates(listed(succ), p, a) ==> #[trigger] sets[a]@[p]
    &&& forall|a: int, p: int|
        0 <= a < succ.len() && 0 <= p < succ.len() && meets(succ, sets, a, p)
            ==> #[trigger] sets[a]@[p]
}

spec fn count_all(sets: Seq<Vec<bool>>) -> nat
    decreases sets.len(),
{
    if sets.len() == 0 {
        0
    } else {
        count_all(sets.drop_last()) + count_true(sets.last()@)
    }
}

proof fn lemma_count_update(sets: Seq<Vec<bool>>, a: int, row: Vec<bool>)
    requires
        0 <= a < sets.len(),
    ensures
        count_all(sets.update(a, row)) == count_all(sets) - count_true(sets[a]@) + count_true(row@),
    decreases sets.len(),
{
    let after = sets.update(a, row);
    if a == sets.len() - 1 {
        assert(after.drop_last() =~= sets.drop_last());
    } else {
        assert(after.drop_last() =~= sets.drop_last().update(a, row));
        lemma_count_update(sets.drop_last(), a, row);
    }
}

/// What post-dominates a node meets its equation.
proof fn lemma_postdominates_meets(
    succ: Seq<Vec<usize>>,
    sets: Seq<Vec<bool>>,
    a: int,
    p: int,
)
    requires
        shrinking(succ, sets),
        0 <= a < succ.len(),
        0 <= p < succ.len(),
        postdominates(listed(succ), p, a),
    ensures
        meets(succ, sets, a, p),
{
    let e = listed(succ);
    if p != a {
        if succ[a]@.len() == 0 {
            let w = seq![a];
            assert(leaves(e, w, a));
            assert(w.contains(p));
        }
        assert forall|k: int| 0 <= k < succ[a]@.len() implies sets[#[trigger] succ[a]@[k] as int]@[p] by {
            let s = succ[a]@[k] as int;
            assert(succ[a]@.contains(succ[a]@[k]));
            assert(e(a, s));
            assert forall|w: Seq<int>| #[trigger] leaves(e, w, s) implies w.contains(p) by {
                let v = seq![a] + w;
                assert forall|i: int| 0 <= i < v.len() - 1 implies #[trigger] step_at(e, v, i) by {
                    if i > 0 {
                        assert(step_at(e, w, i - 1));
                    }
                }
                assert(leaves(e, v, a));
                let i = v.index_of(p);
                assert(w[i - 1] == p);
            }
            assert(sets[s]@[p]);
        }
    }
}

/// At the fixed point, what is in the set of a node lies on every walk to an end.
proof fn lemma_fixed_point(
    succ: Seq<Vec<usize>>,
    sets: Seq<Vec<bool>>,
    a: int,
    p: int,
    w: Seq<int>,
)
    requires
        shrinking(succ, sets),
        forall|b: int, q: int|
            0 <= b < succ.len() && 0 <= q < succ.len() ==> (#[trigger] sets[b]@[q]
                <==> meets(succ, sets, b, q)),
        0 <= a < succ.len(),
        0 <= p < succ.len(),
        sets[a]@[p],
        leaves(listed(succ), w, a),
    ensures
        w.contains(p),
    decreases w.len(),
{
    let e = listed(succ);
    if p == a {
        assert(w[0] == p);
    } else {
        assert(meets(succ, sets, a, p));
        if w.len() == 1 {
            assert(succ[a]@[0] < succ.len());
            assert(succ[a]@.contains(succ[a]@[0]));
            assert(e(w[0], succ[a]@[0] as int));
        } else {
            assert(step_at(e, w, 0));
            let k = succ[a]@.index_of(w[1] as usize);
            assert(sets[succ[a]@[k] as int]@[p]);
            let v = w.subrange(1, w.len() as int);
            lemma_part(e, w, 1, w.len() - 1);
            lemma_fixed_point(succ, sets, w[1], p, v);
            let i = v.index_of(p);
            assert(w[i + 1] == p);
        }
    }
}

/// The meet over the successors of `a`, and `a` itself.
fn intersect_sets(succ: &Vec<Vec<usize>>, sets: &Vec<Vec<bool>>, a: usize) -> (row: Vec<bool>)
    requires
        well_shaped(succ@, sets@),
        a < succ@.len(),
    ensures
        row@.len() == succ@.len(),
        forall|p: int|
            0 <= p < succ@.len() ==> (#[trigger] row@[p] <==> meets(succ@, sets@, a as int, p)),
{
    let n: usize = succ.len();
    let targets = &succ[a];
    let mut row: Vec<bool> = Vec::new();
    for p in 0..n
        invariant
            well_shaped(succ@, sets@),
            a < succ@.len(),
            n == succ@.len(),
            targets@ == succ@[a as int]@,
            row@.len() == p,
            forall|q: int| 0 <= q < p ==> (#[trigger] row@[q] <==> meets(succ@, sets@, a as int, q)),
    {
        let mut all = targets.len() > 0;
        for k in 0..targets.len()
            invariant
                well_shaped(succ@, sets@),
                a < succ@.len(),
                p < n,
                n == succ@.len(),
                targets@ == succ@[a as int]@,
                all <==> targets@.len() > 0 && forall|i: int|
                    0 <= i < k ==> sets@[#[trigger] targets@[i] as int]@[p as int],
        {
            assert(succ@[a as int]@[k as int] < succ@.len());
            if !sets[targets[k]][p] {
                all = false;
            }
        }
        row.push(all || p == a);
    }
    row
}

/// The post-dominators of every node of the lists `succ`, as rows of a square table.
#[verifier::rlimit(40)]
fn postdominator_table(succ: &Vec<Vec<usize>>) -> (sets: Vec<Vec<bool>>)
    requires
        forall|a: int, k: int|
            0 <= a < succ@.len() && 0 <= k < succ@[a]@.len() ==> (#[trigger] succ@[a]@[k])
                < succ@.len(),
    ensures
        sets@.len() == succ@.len(),
        forall|a: int| 0 <= a < sets@.len() ==> (#[trigger] sets@[a])@.len() == succ@.len(),
        forall|a: int, p: int|
            0 <= a < succ@.len() && 0 <= p < succ@.len() ==> (#[trigger] sets@[a]@[p]
                <==> postdominates(listed(succ@), p, a)),
{
    let n: usize = succ.len();
    let ghost e = listed(succ@);
    let mut sets: Vec<Vec<bool>> = Vec::new();
    for a in 0..n
        invariant
            n == succ@.len(),
            sets@.len() == a,
            forall|b: int| 0 <= b < a ==> (#[trigger] sets@[b])@.len() == n,
            forall|b: int, p: int|
                0 <= b < a && 0 <= p < n ==> #[trigger] sets@[b]@[p],
    {
        let mut row: Vec<bool> = Vec::new();
        for p in 0..n
            invariant
                a < n,
                row@.len() == p,
                forall|q: int| 0 <= q < p ==> #[trigger] row@[q],
        {
            row.push(true);
        }
        sets.push(row);
    }
    let mut changed = true;
    while changed
        invariant
            n == succ@.len(),
            shrinking(succ@, sets@),
            !changed ==> forall|b: int, q: int|
                0 <= b < n && 0 <= q < n ==> (#[trigger] sets@[b]@[q] <==> meets(
                    succ@,
                    sets@,
                    b,
                    q,
                )),
        decreases
                count_all(sets@) + if changed {
                    1int
                } else {
                    0
                },
    {
        changed = false;
        let ghost before = count_all(sets@);
        for a in 0..n
            invariant
                n == succ@.len(),
                shrinking(succ@, sets@),
                count_all(sets@) <= before,
                changed ==> count_all(sets@) < before,
                !changed ==> forall|b: int, q: int|
                    0 <= b < a && 0 <= q < n ==> (#[trigger] sets@[b]@[q] <==> meets(
                        succ@,
                        sets@,
                        b,
                        q,
                    )),
        {
            let row = intersect_sets(succ, &sets, a);
            let ghost old_row = sets@[a as int]@;
            let mut same = true;
            for p in 0..n
                invariant
                    n == succ@.len(),
                    a < n,
                    shrinking(succ@, sets@),
                    row@.len() == n,
                    old_row == sets@[a as int]@,
                    same <==> forall|q: int| 0 <= q < p ==> #[trigger] row@[q] == old_row[q],
            {
                if row[p] != sets[a][p] {
                    same = false;
                }
            }
            if !same {
                let ghost mid = sets@;
                proof {
                    let q = choose|q: int| 0 <= q < n && #[trigger] row@[q] != old_row[q];
                    assert(mid[a as int]@[q] == old_row[q]);
                    lemma_count_update(mid, a as int, row);
                    assert forall|i: int| 0 <= i < row@.len() && #[trigger] row@[i] implies old_row[i] by {
                        assert(meets(succ@, mid, a as int, i));
                        assert(mid[a as int]@[i]);
                    }
                    assert(!row@[q] && old_row[q]);
                    lemma_count_shrinks(row@, old_row);
                }
                sets.set(a, row);
                changed = true;
                proof {
                    assert(sets@ == mid.update(a as int, row));
                    assert forall|b: int, p: int| 0 <= b < n && 0 <= p < n && sets@[b]@[p] implies #[trigger] mid[b]@[p] by {
                        if b == a {
                            assert(meets(succ@, mid, a as int, p));
                        }
                    }
                    assert forall|b: int, p: int|
                        0 <= b < n && 0 <= p < n && meets(succ@, sets@, b, p) implies #[trigger] meets(succ@, mid, b, p) by {
                        if p != b {
                            assert forall|k: int| 0 <= k < succ@[b]@.len() implies mid[
                                #[trigger] succ@[b]@[k] as int]@[p] by {
                                assert(sets@[succ@[b]@[k] as int]@[p]);
                            }
                        }
                    }
                    assert forall|b: int, p: int|
                        0 <= b < n && 0 <= p < n && meets(succ@, sets@, b, p) implies #[trigger] sets@[b]@[p] by {
                        assert(meets(succ@, mid, b, p));
                        assert(mid[b]@[p]);
                    }
                    assert forall|b: int, p: int|
                        0 <= b < n && 0 <= p < n && postdominates(listed(succ@), p, b) implies #[trigger] sets@[b]@[p] by {
                        assert(mid[b]@[p]);
                        if b == a {
                            lemma_postdominates_meets(succ@, mid, b, p);
                        }
                    }
                    assert(shrinking(succ@, sets@));
                }
            } else {
                proof {
                    assert forall|q: int| 0 <= q < n implies (#[trigger] sets@[a as int]@[q] <==> meets(succ@, sets@, a as int, q)) by {
                        assert(row@[q] == old_row[q]);
                    }
                }
            }
        }
    }
    proof {
        assert forall|a: int, p: int| 0 <= a < n && 0 <= p < n && #[trigger] sets@[a]@[p] implies postdominates(e, p, a) by {
            assert forall|w: Seq<int>| #[trigger] leaves(e, w, a) implies w.contains(p) by {
                lemma_fixed_point(succ@, sets@, a, p, w);
            }
        }
    }
    sets
}

/// The steps that the analysis follows: between the given nodes, and never out of an exit.
pub open spec fn inner_steps<C: Cfg>(
    graph: &C,
    nodes: Seq<C::NodeId>,
    node_set: Set<usize>,
    exit_set: Set<usize>,
) -> spec_fn(C::NodeId, C::NodeId) -> bool {
    |a: C::NodeId, b: C::NodeId|
        {
            &&& nodes.contains(a)
            &&& !exit_set.contains(a.spec_index())
            &&& graph.spec_successors(a).contains(b)
            &&& node_set.contains(b.spec_index())
        }
}

/// Computes the post-dominators of `nodes`, by the index of the node.
///
/// A walk follows edges into `node_set` and ends at a node of `exit_set`, or where no
/// edge can be followed. Where no walk from a node ends, all the nodes post-dominate it.
#[verifier::rlimit(40)]
pub fn compute_postdominators<C: Cfg>(
    graph: &C,
    nodes: &[C::NodeId],
    node_set: &FxHashSet<usize>,
    exit_set: &FxHashSet<usize>,
) -> (pdom: FxHashMap<usize, Vec<C::NodeId>>)
    requires
        graph.is_valid(),
        forall|a: C::NodeId, b: C::NodeId| #[trigger]
            inner_steps(graph, nodes@, node_set@, exit_set@)(a, b) ==> nodes@.contains(b),
    ensures
        forall|n: C::NodeId|
            pdom@.contains_key(#[trigger] n.spec_index()) <==> nodes@.contains(n),
        forall|n: C::NodeId|
            nodes@.contains(n) ==> (#[trigger] pdom@[n.spec_index()])@.no_duplicates(),
        forall|n: C::NodeId, p: C::NodeId|
            nodes@.contains(n) ==> (#[trigger] pdom@[n.spec_index()]@.contains(p) <==> nodes@.contains(p)
                && postdominates(inner_steps(graph, nodes@, node_set@, exit_set@), p, n)),
{
    let ghost g = inner_steps(graph, nodes@, node_set@, exit_set@);
    let mut number: FxHashMap<usize, usize> = fx::map_new();
    let mut list: Vec<C::NodeId> = Vec::new();
    for i in 0..nodes.len()
        invariant
            numbers_list(number@, list@),
            list@.len() <= i,
            forall|k: int| 0 <= k < i ==> list@.contains(#[trigger] nodes@[k]),
            forall|k: int| 0 <= k < list@.len() ==> nodes@.contains(#[trigger] list@[k]),
    {
        let node = nodes[i];
        let ghost list0 = list@;
        let known = fx::map_get(&number, node.to_usize()).is_some();
        if !known {
            let ghost number0 = number@;
            fx::map_insert(&mut number, node.to_usize(), list.len());
            list.push(node);
            proof {
                assert(nodes@.contains(node));
                assert(list@[list0.len() as int] == node);
                assert forall|k: int| 0 <= k < list@.len() implies number@.contains_key(
                    #[trigger] list@[k].spec_index(),
                ) && number@[list@[k].spec_index()] == k by {
                    if k < list0.len() {
                        assert(number0.contains_key(list0[k].spec_index()));
                    }
                }
                assert forall|n: C::NodeId| number@.contains_key(#[trigger] n.spec_index()) implies number@[n.spec_index()] < list@.len() && list@[number@[n.spec_index()] as int] == n by {
                    lemma_id_injective(n, node);
                    if n != node {
                        assert(number0.contains_key(n.spec_index()));
                    }
                }
                assert forall|k: int| 0 <= k < i implies list@.contains(#[trigger] nodes@[k]) by {
                    assert(list@[list0.index_of(nodes@[k])] == nodes@[k]);
                }
            }
        } else {
            assert(list@[number@[node.spec_index()] as int] == node);
        }
    }
    let mut succ: Vec<Vec<usize>> = Vec::new();
    for i in 0..list.len()
        invariant
            graph.is_valid(),
            g == inner_steps(graph, nodes@, node_set@, exit_set@),
            forall|a: C::NodeId, b: C::NodeId| #[trigger] g(a, b) ==> nodes@.contains(b),
            numbers_list(number@, list@),
            forall|n: C::NodeId| #[trigger] list@.contains(n) <==> nodes@.contains(n),
            succ@.len() == i,
            forall|a: int, k: int|
                0 <= a < i && 0 <= k < succ@[a]@.len() ==> (#[trigger] succ@[a]@[k]) < list@.len()
                    && g(list@[a], list@[succ@[a]@[k] as int]),
            forall|a: int, b: int|
                0 <= a < i && 0 <= b < list@.len() && #[trigger] g(list@[a], list@[b])
                    ==> succ@[a]@.contains(b as usize),
    {
        let mut row: Vec<usize> = Vec::new();
        let ghost node = list@[i as int];
        assert(list@.contains(node));
        if !fx::set_contains(exit_set, list[i].to_usize()) {
            let targets = graph.successors(list[i]);
            for k in 0..targets.len()
                invariant
                    g == inner_steps(graph, nodes@, node_set@, exit_set@),
                    forall|a: C::NodeId, b: C::NodeId| #[trigger] g(a, b) ==> nodes@.contains(b),
                    numbers_list(number@, list@),
                    forall|n: C::NodeId| #[trigger] list@.contains(n) <==> nodes@.contains(n),
                    nodes@.contains(node),
                    !exit_set@.contains(node.spec_index()),
                    targets@ == graph.spec_successors(node),
                    forall|j: int|
                        0 <= j < row@.len() ==> (#[trigger] row@[j]) < list@.len() && g(
                            node,
                            list@[row@[j] as int],
                        ),
                    forall|j: int, b: int|
                        0 <= j < k && 0 <= b < list@.len() && #[trigger] targets@[j]
                            == #[trigger] list@[b] && node_set@.contains(targets@[j].spec_index())
                            ==> row@.contains(b as usize),
            {
                let target = targets[k];
                if fx::set_contains(node_set, target.to_usize()) {
                    proof {
                        assert(targets@.contains(target));
                        assert(g(node, target));
                        assert(list@.contains(target));
                        let at = list@.index_of(target);
                        assert(number@.contains_key(list@[at].spec_index()));
                    }
                    let b: usize = *fx::map_get(&number, target.to_usize()).unwrap();
                    let ghost row0 = row@;
                    row.push(b);
                    proof {
                        assert(row@[row0.len() as int] == b);
                        assert forall|j: int, c: int|
                            0 <= j < k + 1 && 0 <= c < list@.len() && #[trigger] targets@[j]
                                == #[trigger] list@[c] && node_set@.contains(targets@[j].spec_index()) implies row@.contains(c as usize) by {
                            if j < k {
                                assert(row@[row0.index_of(c as usize)] == c as usize);
                            } else {
                                assert(number@[list@[c].spec_index()] == c);
                            }
                        }
                    }
                }
            }
            proof {
                assert forall|b: int| 0 <= b < list@.len() && #[trigger] g(node, list@[b]) implies row@.contains(b as usize) by {
                    let j = targets@.index_of(list@[b]);
                    assert(targets@[j] == list@[b]);
                }
            }
        }
        succ.push(row);
    }
    let table = postdominator_table(&succ);
    let mut pdom: FxHashMap<usize, Vec<C::NodeId>> = fx::map_new();
    for i in 0..list.len()
        invariant
            numbers_list(number@, list@),
            table@.len() == list@.len(),
            forall|a: int| 0 <= a < table@.len() ==> (#[trigger] table@[a])@.len() == list@.len(),
            forall|n: C::NodeId|
                pdom@.contains_key(#[trigger] n.spec_index()) <==> exists|k: int| 0 <= k < i && #[trigger] list@[k] == n,
            forall|a: int|
                0 <= a < i ==> selects((#[trigger] pdom@[list@[a].spec_index()])@, list@, table@[a]@, list@.len() as int),
    {
        let node = list[i];
        let ghost pdom0 = pdom@;
        let mut set: Vec<C::NodeId> = Vec::new();
        for p in 0..list.len()
            invariant
                numbers_list(number@, list@),
                0 <= i < list@.len(),
                table@.len() == list@.len(),
                forall|a: int| 0 <= a < table@.len() ==> (#[trigger] table@[a])@.len() == list@.len(),
                selects(set@, list@, table@[i as int]@, p as int),
        {
            if table[i][p] {
                let ghost set0 = set@;
                set.push(list[p]);
                proof {
                    lemma_selects_push(set0, list@, table@[i as int]@, p as int, number@);
                }
            }
        }
        fx::map_insert(&mut pdom, node.to_usize(), set);
        proof {
            assert forall|a: int| 0 <= a < i + 1 implies selects((#[trigger] pdom@[list@[a].spec_index()])@, list@, table@[a]@, list@.len() as int) by {
                assert(number@[list@[a].spec_index()] == a);
                assert(number@[list@[i as int].spec_index()] == i);
                if a < i {
                    assert(pdom@[list@[a].spec_index()] == pdom0[list@[a].spec_index()]);
                }
            }
            assert forall|n: C::NodeId| pdom@.contains_key(#[trigger] n.spec_index()) <==> exists|k: int| 0 <= k < i + 1 && #[trigger] list@[k] == n by {
                lemma_id_injective(n, node);
                if n == node {
                    assert(list@[i as int] == n);
                }
                if n != node && (exists|k: int| 0 <= k < i + 1 && #[trigger] list@[k] == n) {
                    let k = choose|k: int| 0 <= k < i + 1 && #[trigger] list@[k] == n;
                    assert(k < i);
                    assert(pdom0.contains_key(n.spec_index()));
                }
            }
        }
    }
    proof {
        assert forall|a: int, p: int| 0 <= a < list@.len() && 0 <= p < list@.len() implies (#[trigger] table@[a]@[p] <==> postdominates(g, list@[p], list@[a])) by {
            assert(list@.no_duplicates()) by {
                assert forall|i: int, j: int| 0 <= i < list@.len() && 0 <= j < list@.len() && i != j implies list@[i] != list@[j] by {
                    assert(number@[list@[i].spec_index()] == i);
                    assert(number@[list@[j].spec_index()] == j);
                }
            }
            lemma_postdominance_listed(succ@, list@, g, p, a);
        }
        assert forall|n: C::NodeId| #[trigger] nodes@.contains(n) implies exists|k: int| 0 <= k < list@.len() && #[trigger] list@[k] == n by {
            assert(list@.contains(n));
        }
        assert forall|n: C::NodeId| pdom@.contains_key(#[trigger] n.spec_index()) <==> nodes@.contains(n) by {
            if pdom@.contains_key(n.spec_index()) {
                assert(list@.contains(n));
            }
        }
        assert forall|n: C::NodeId| nodes@.contains(n) implies (#[trigger] pdom@[n.spec_index()])@.no_duplicates() by {
            let a = choose|k: int| 0 <= k < list@.len() && #[trigger] list@[k] == n;
            assert(selects(pdom@[list@[a].spec_index()]@, list@, table@[a]@, list@.len() as int));
        }
        assert forall|n: C::NodeId, p: C::NodeId|
            nodes@.contains(n) implies (#[trigger] pdom@[n.spec_index()]@.contains(p) <==> nodes@.contains(p)
                && postdominates(g, p, n)) by {
            let a = choose|k: int| 0 <= k < list@.len() && #[trigger] list@[k] == n;
            let set = pdom@[list@[a].spec_index()]@;
            assert(selects(set, list@, table@[a]@, list@.len() as int));
            if nodes@.contains(p) {
                let b = choose|k: int| 0 <= k < list@.len() && #[trigger] list@[k] == p;
                assert(table@[a]@[b] <==> postdominates(g, p, n));
                assert(set.contains(list@[b]) <==> table@[a]@[b]);
            }
            if set.contains(p) {
                let k = set.index_of(p);
                assert(list@.contains(set[k]));
            }
        }
    }
    pdom
}

/// `set` holds those of the first `top` nodes of `list` that `row` marks.
spec fn selects<Id: Identifier>(set: Seq<Id>, list: Seq<Id>, row: Seq<bool>, top: int) -> bool {
    &&& set.no_duplicates()
    &&& forall|i: int| 0 <= i < set.len() ==> list.contains(#[trigger] set[i])
    &&& forall|b: int| 0 <= b < list.len() ==> (#[trigger] set.contains(list[b]) <==> b < top && row[b])
}

proof fn lemma_selects_push<Id: Identifier>(set: Seq<Id>, list: Seq<Id>, row: Seq<bool>, p: int, number: Map<usize, usize>)
    requires
        numbers_list(number, list),
        0 <= p < list.len(),
        row[p],
        selects(set, list, row, p),
    ensures
        selects(set.push(list[p]), list, row, p + 1),
{
    let after = set.push(list[p]);
    assert(!set.contains(list[p]));
    assert(after[set.len() as int] == list[p]);
    assert forall|b: int| 0 <= b < list.len() implies (#[trigger] after.contains(list[b]) <==> b < p + 1 && row[b]) by {
        assert(set.contains(list[b]) <==> b < p && row[b]);
        if set.contains(list[b]) {
            assert(after[set.index_of(list[b])] == list[b]);
        }
        if after.contains(list[b]) && !set.contains(list[b]) {
            let i = after.index_of(list[b]);
            if i < set.len() {
                assert(set[i] == list[b]);
            }
            assert(number[list[b].spec_index()] == b);
            assert(number[list[p].spec_index()] == p);
        }
    }
    assert forall|i: int| 0 <= i < after.len() implies list.contains(#[trigger] after[i]) by {
        if i < set.len() {
            assert(list.contains(set[i]));
        }
    }
}

/// Post-dominance means the same for nodes and for their positions in a list.
proof fn lemma_postdominance_listed<N>(succ: Seq<Vec<usize>>, list: Seq<N>, g: spec_fn(N, N) -> bool, p: int, a: int)
    requires
        0 <= p < list.len() == succ.len() <= usize::MAX,
        0 <= a < list.len(),
        list.no_duplicates(),
        forall|x: N, y: N| #[trigger] g(x, y) ==> list.contains(x) && list.contains(y),
        forall|x: int, k: int|
            0 <= x < list.len() && 0 <= k < succ[x]@.len() ==> (#[trigger] succ[x]@[k]) < list.len()
                && g(list[x], list[succ[x]@[k] as int]),
        forall|x: int, y: int|
            0 <= x < list.len() && 0 <= y < list.len() && #[trigger] g(list[x], list[y])
                ==> succ[x]@.contains(y as usize),
    ensures
        postdominates(listed(succ), p, a) <==> postdominates(g, list[p], list[a]),
{
    let e = listed(succ);
    assert forall|x: int, y: int| 0 <= x < list.len() && 0 <= y < list.len() implies (#[trigger] e(x, y) <==> g(list[x], list[y])) by {
        if e(x, y) {
            let k = succ[x]@.index_of(y as usize);
            assert(g(list[x], list[succ[x]@[k] as int]));
        }
    }
    if postdominates(e, p, a) {
        assert forall|w: Seq<N>| #[trigger] leaves(g, w, list[a]) implies w.contains(list[p]) by {
            let v = Seq::new(w.len(), |i: int| list.index_of(w[i]));
            assert forall|i: int| 0 <= i < w.len() implies 0 <= #[trigger] v[i] < list.len() && list[v[i]] == w[i] by {
                if i == 0 {
                    assert(list.contains(list[a]));
                } else {
                    assert(step_at(g, w, i - 1));
                }
            }
            assert forall|i: int| 0 <= i < v.len() - 1 implies #[trigger] step_at(e, v, i) by {
                assert(step_at(g, w, i));
                assert(list[v[i]] == w[i] && list[v[i + 1]] == w[i + 1]);
            }
            assert(list[v[0]] == list[a]);
            let last = v[v.len() - 1];
            assert forall|b: int| !#[trigger] e(last, b) by {
                if e(last, b) {
                    assert(g(list[last], list[b]));
                }
            }
            assert(leaves(e, v, a));
            let i = v.index_of(p);
            assert(w[i] == list[v[i]]);
        }
    }
    if postdominates(g, list[p], list[a]) {
        assert forall|v: Seq<int>| #[trigger] leaves(e, v, a) implies v.contains(p) by {
            let w = Seq::new(v.len(), |i: int| list[v[i]]);
            assert forall|i: int| 0 <= i < v.len() implies 0 <= #[trigger] v[i] < list.len() by {
                if i > 0 {
                    assert(step_at(e, v, i - 1));
                }
            }
            assert forall|i: int| 0 <= i < w.len() - 1 implies #[trigger] step_at(g, w, i) by {
                assert(step_at(e, v, i));
            }
            let last = v[v.len() - 1];
            assert forall|b: N| !#[trigger] g(list[last], b) by {
                if g(list[last], b) {
                    let k = list.index_of(b);
                    assert(e(last, k));
                }
            }
            assert(leaves(g, w, list[a]));
            let i = w.index_of(list[p]);
            assert(v[i] == p);
        }
    }
}

} // verus!
