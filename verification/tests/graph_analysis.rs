use std::collections::HashSet;

use jstd::graph::analysis::dominator::{compute_dominators, reachable_from_root};
use jstd::graph::analysis::post_dominator::compute_postdominators;
use jstd::graph::analysis::sese::{compute_sese, compute_sese_candidates};
use jstd::graph::owning::OwningGraph;
use jstd::registry::Identifier;
use rustc_hash::FxHashSet;

#[derive(Copy, Clone, Debug, PartialEq, Eq, PartialOrd, Ord, Hash)]
struct NodeId(usize);

impl Identifier for NodeId {
    fn spec_index(self) -> usize {
        self.to_usize()
    }

    fn spec_from_index(n: usize) -> Self {
        Self::from_usize(n)
    }

    fn lemma_from_index(self) {}

    fn from_usize(n: usize) -> Self {
        Self(n)
    }

    fn to_usize(self) -> usize {
        self.0
    }
}

#[derive(Copy, Clone, Debug, PartialEq, Eq, PartialOrd, Ord, Hash)]
struct EdgeId(usize);

impl Identifier for EdgeId {
    fn spec_index(self) -> usize {
        self.to_usize()
    }

    fn spec_from_index(n: usize) -> Self {
        Self::from_usize(n)
    }

    fn lemma_from_index(self) {}

    fn from_usize(n: usize) -> Self {
        Self(n)
    }

    fn to_usize(self) -> usize {
        self.0
    }
}

type TestGraph = OwningGraph<NodeId, EdgeId, (), ()>;

fn set_of(list: &[NodeId]) -> HashSet<NodeId> {
    list.iter().copied().collect()
}

#[test]
fn computes_reachability_from_root() {
    let mut graph = TestGraph::default();

    let a = graph.make_node(());
    let b = graph.make_node(());
    let c = graph.make_node(());
    let d = graph.make_node(());
    let x = graph.make_node(());

    graph.make_edge(a, b, ());
    graph.make_edge(b, c, ());
    graph.make_edge(c, d, ());

    let reachable: HashSet<_> = reachable_from_root(&graph, a).into_iter().collect();

    assert!(reachable.contains(&a));
    assert!(reachable.contains(&b));
    assert!(reachable.contains(&c));
    assert!(reachable.contains(&d));
    assert!(!reachable.contains(&x));
}

#[test]
fn computes_dominators_on_diamond() {
    // a -> b, a -> c, b -> d, c -> d, d -> e
    let mut graph = TestGraph::default();
    let a = graph.make_node(());
    let b = graph.make_node(());
    let c = graph.make_node(());
    let d = graph.make_node(());
    let e = graph.make_node(());
    graph.make_edge(a, b, ());
    graph.make_edge(a, c, ());
    graph.make_edge(b, d, ());
    graph.make_edge(c, d, ());
    graph.make_edge(d, e, ());

    let tree = compute_dominators(&graph, a);

    assert_eq!(tree.dominator_set(a).map(|list| set_of(&list)), Some(HashSet::from_iter([a])));
    assert!(tree.dominates(a, b) && tree.dominates(b, b));
    assert!(tree.dominates(a, c) && tree.dominates(c, c));
    assert!(tree.dominates(a, d));
    assert!(!tree.dominates(b, d));
    assert!(!tree.dominates(c, d));
    assert!(tree.dominates(a, e) && tree.dominates(d, e) && tree.dominates(e, e));
}

#[test]
fn immediate_dominator_on_chain() {
    // a -> b -> c -> d
    let mut graph = TestGraph::default();
    let a = graph.make_node(());
    let b = graph.make_node(());
    let c = graph.make_node(());
    let d = graph.make_node(());
    graph.make_edge(a, b, ());
    graph.make_edge(b, c, ());
    graph.make_edge(c, d, ());

    let tree = compute_dominators(&graph, a);

    assert_eq!(tree.immediate_dominator(b), Some(a));
    assert_eq!(tree.immediate_dominator(c), Some(b));
    assert_eq!(tree.immediate_dominator(d), Some(c));
    assert_eq!(tree.immediate_dominator(a), None);
}

#[test]
fn immediate_dominator_on_diamond() {
    // a -> b, a -> c, b -> d, c -> d
    let mut graph = TestGraph::default();
    let a = graph.make_node(());
    let b = graph.make_node(());
    let c = graph.make_node(());
    let d = graph.make_node(());
    graph.make_edge(a, b, ());
    graph.make_edge(a, c, ());
    graph.make_edge(b, d, ());
    graph.make_edge(c, d, ());

    let tree = compute_dominators(&graph, a);

    assert_eq!(tree.immediate_dominator(b), Some(a));
    assert_eq!(tree.immediate_dominator(c), Some(a));
    assert_eq!(tree.immediate_dominator(d), Some(a));
    assert_eq!(tree.immediate_dominator(a), None);
}

#[test]
fn dominator_frontier_on_diamond() {
    // a -> b, a -> c, b -> d, c -> d
    // idom: b=a, c=a, d=a
    // DF(a)={}, DF(b)={d}, DF(c)={d}, DF(d)={}
    let mut graph = TestGraph::default();
    let a = graph.make_node(());
    let b = graph.make_node(());
    let c = graph.make_node(());
    let d = graph.make_node(());
    graph.make_edge(a, b, ());
    graph.make_edge(a, c, ());
    graph.make_edge(b, d, ());
    graph.make_edge(c, d, ());

    let tree = compute_dominators(&graph, a);
    let df = tree.dominator_frontier();

    assert_eq!(set_of(&df[&a.0]), HashSet::default());
    assert_eq!(set_of(&df[&b.0]), HashSet::from_iter([d]));
    assert_eq!(set_of(&df[&c.0]), HashSet::from_iter([d]));
    assert_eq!(set_of(&df[&d.0]), HashSet::default());
}

#[test]
fn dominator_frontier_on_loop() {
    // a -> b -> c -> b (back-edge), b -> d
    // idom: b=a, c=b, d=b
    // DF(b)={b} (b is its own frontier due to the back-edge), DF(c)={b}, DF(d)={}
    let mut graph = TestGraph::default();
    let a = graph.make_node(());
    let b = graph.make_node(());
    let c = graph.make_node(());
    let d = graph.make_node(());
    graph.make_edge(a, b, ());
    graph.make_edge(b, c, ());
    graph.make_edge(c, b, ());
    graph.make_edge(b, d, ());

    let tree = compute_dominators(&graph, a);
    let df = tree.dominator_frontier();

    assert_eq!(set_of(&df[&a.0]), HashSet::default());
    assert_eq!(set_of(&df[&b.0]), HashSet::from_iter([b]));
    assert_eq!(set_of(&df[&c.0]), HashSet::from_iter([b]));
    assert_eq!(set_of(&df[&d.0]), HashSet::default());
}

#[test]
fn dominator_frontier_holds_the_root_of_a_loop() {
    // a -> b -> a: both lead back to the root, which neither strictly dominates.
    let mut graph = TestGraph::default();
    let a = graph.make_node(());
    let b = graph.make_node(());
    graph.make_edge(a, b, ());
    graph.make_edge(b, a, ());
    let tree = compute_dominators(&graph, a);
    let df = tree.dominator_frontier();
    assert_eq!(set_of(&df[&a.0]), HashSet::from_iter([a]));
    assert_eq!(set_of(&df[&b.0]), HashSet::from_iter([a]));
}

#[test]
fn dominator_tree_children_on_diamond() {
    // a -> b, a -> c, b -> d, c -> d  =>  idom(b)=a, idom(c)=a, idom(d)=a
    let mut graph = TestGraph::default();
    let a = graph.make_node(());
    let b = graph.make_node(());
    let c = graph.make_node(());
    let d = graph.make_node(());
    graph.make_edge(a, b, ());
    graph.make_edge(a, c, ());
    graph.make_edge(b, d, ());
    graph.make_edge(c, d, ());

    let tree = compute_dominators(&graph, a);

    let mut a_children: Vec<_> = tree.children_of(a).to_vec();
    a_children.sort_by_key(|id| id.to_usize());
    assert_eq!(a_children, vec![b, c, d]);
    assert!(tree.children_of(d).is_empty());
}

fn index_set(list: &[NodeId]) -> FxHashSet<usize> {
    list.iter().map(|id| id.0).collect()
}

#[test]
fn computes_postdominators_with_single_exit() {
    let mut graph = TestGraph::default();
    let a = graph.make_node(());
    let b = graph.make_node(());
    let c = graph.make_node(());
    let d = graph.make_node(());
    let e = graph.make_node(());
    graph.make_edge(a, b, ());
    graph.make_edge(a, c, ());
    graph.make_edge(b, d, ());
    graph.make_edge(c, d, ());
    graph.make_edge(d, e, ());

    let mut nodes = reachable_from_root(&graph, a);
    nodes.sort_by_key(|id| id.to_usize());
    let node_set = index_set(&nodes);
    let exit_set = index_set(&[e]);

    let pdom = compute_postdominators(&graph, &nodes, &node_set, &exit_set);

    assert_eq!(set_of(&pdom[&e.0]), HashSet::from_iter([e]));
    assert!(pdom[&d.0].contains(&d) && pdom[&d.0].contains(&e));
    assert!(pdom[&a.0].contains(&a) && pdom[&a.0].contains(&d) && pdom[&a.0].contains(&e));
    assert!(!pdom[&a.0].contains(&b));
    assert!(!pdom[&a.0].contains(&c));
}

#[test]
fn computes_postdominators_with_multiple_exits() {
    let mut graph = TestGraph::default();
    let a = graph.make_node(());
    let b = graph.make_node(());
    let c = graph.make_node(());
    let d = graph.make_node(());
    graph.make_edge(a, b, ());
    graph.make_edge(a, c, ());
    graph.make_edge(b, d, ());

    let mut nodes = reachable_from_root(&graph, a);
    nodes.sort_by_key(|id| id.to_usize());
    let node_set = index_set(&nodes);
    let exit_set = index_set(&[c, d]);

    let pdom = compute_postdominators(&graph, &nodes, &node_set, &exit_set);

    assert_eq!(set_of(&pdom[&c.0]), HashSet::from_iter([c]));
    assert_eq!(set_of(&pdom[&d.0]), HashSet::from_iter([d]));
    assert_eq!(set_of(&pdom[&a.0]), HashSet::from_iter([a]));
}

#[test]
fn finds_diamond_between_canonical_boundary_edges() {
    let mut graph = TestGraph::default();
    let s = graph.make_node(());
    let a = graph.make_node(());
    let b = graph.make_node(());
    let c = graph.make_node(());
    let d = graph.make_node(());
    let t = graph.make_node(());
    let entry = graph.make_edge(s, a, ());
    graph.make_edge(a, b, ());
    graph.make_edge(a, c, ());
    graph.make_edge(b, d, ());
    graph.make_edge(c, d, ());
    let exit = graph.make_edge(d, t, ());

    let tree = compute_sese(&graph, s);
    let region = tree
        .regions
        .iter()
        .find(|region| region.entry_edge == Some(entry))
        .expect("diamond region");
    assert_eq!(region.exit_edge, Some(exit));
    assert_eq!(region.contained_nodes, vec![a, b, c, d]);

    // The diamond is among the candidates too.
    let found = compute_sese_candidates(&graph, s);
    assert!(found.iter().any(|candidate| candidate.entry_edge == entry
        && candidate.exit_edge == exit
        && candidate.contained_nodes == vec![a, b, c, d]));
}

#[test]
fn nested_regions_are_laminar_and_assign_every_node_once() {
    let mut graph = TestGraph::default();
    let nodes: Vec<_> = (0..8).map(|_| graph.make_node(())).collect();
    for pair in nodes.windows(2) {
        graph.make_edge(pair[0], pair[1], ());
    }
    graph.make_edge(nodes[1], nodes[4], ());
    graph.make_edge(nodes[2], nodes[3], ());
    graph.make_edge(nodes[4], nodes[6], ());

    let tree = compute_sese(&graph, nodes[0]);
    assert!(tree.has_nontrivial_regions());
    assert_eq!(tree.root().contained_nodes, nodes);
    let owned: Vec<_> = tree
        .regions
        .iter()
        .flat_map(|region| region.nodes.iter().copied())
        .collect();
    let mut unique = owned.clone();
    unique.sort();
    unique.dedup();
    assert_eq!(owned.len(), nodes.len());
    assert_eq!(unique, nodes);
    for (id, region) in tree.regions.iter().enumerate().skip(1) {
        let parent = region.parent.unwrap();
        assert!(parent < id);
        assert!(region
            .contained_nodes
            .iter()
            .all(|node| tree.regions[parent].contained_nodes.contains(node)));
    }
}

#[test]
fn the_smallest_region_is_kept_for_each_boundary_edge() {
    let mut graph = TestGraph::default();
    let n: Vec<_> = (0..8).map(|_| graph.make_node(())).collect();
    let [root, a, end, b, c, d, e, f] = [0, 1, 2, 3, 4, 5, 6, 7].map(|i: usize| n[i]);
    graph.make_edge(root, a, ());
    graph.make_edge(a, end, ());
    graph.make_edge(root, b, ());
    let bc = graph.make_edge(b, c, ());
    let cd = graph.make_edge(c, d, ());
    let d_end = graph.make_edge(d, end, ());
    graph.make_edge(b, e, ());
    graph.make_edge(e, f, ());
    graph.make_edge(f, end, ());
    let tree = compute_sese(&graph, root);
    let holds = |nodes: &[_]| {
        tree.regions.iter().skip(1).any(|region| region.contained_nodes.as_slice() == nodes)
    };
    for node in [a, c, d, e, f] {
        assert!(holds(&[node]));
    }
    assert!(!holds(&[c, d]));
    assert!(!holds(&[e, f]));
    assert_eq!(tree.regions.len(), 6);
    // The exit edge of one region is the entry edge of the next.
    let region = |node| {
        tree.regions.iter().skip(1).find(|region| region.contained_nodes == vec![node]).unwrap()
    };
    assert_eq!((region(c).entry_edge, region(c).exit_edge), (Some(bc), Some(cd)));
    assert_eq!((region(d).entry_edge, region(d).exit_edge), (Some(cd), Some(d_end)));
}

#[test]
fn a_root_that_is_no_node_is_a_region_by_itself() {
    let mut graph = TestGraph::default();
    let a = graph.make_node(());
    let b = graph.make_node(());
    graph.make_edge(a, b, ());
    let missing = Identifier::from_usize(7);
    let tree = compute_sese(&graph, missing);
    assert_eq!(tree.regions.len(), 1);
    assert_eq!(tree.root().contained_nodes, vec![missing]);
    assert!(compute_sese_candidates(&graph, missing).is_empty());
}
