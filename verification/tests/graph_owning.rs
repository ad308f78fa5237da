use std::collections::HashSet;

use jstd::graph::edge::{Edge, EdgeMut};
use jstd::graph::node::{Node, NodeMut};
use jstd::graph::owning::{EdgeRef, NodeMutRef, NodeRef, OwningGraph};
use jstd::graph::{GraphMut, Traverse};
use jstd::registry::Identifier;

#[derive(Copy, Clone, Debug, Default, PartialEq, Eq, PartialOrd, Ord, Hash)]
struct TestNodeId(usize);

impl Identifier for TestNodeId {
    fn spec_index(self) -> usize {
        self.to_usize()
    }

    fn spec_from_index(n: usize) -> Self {
        Self::from_usize(n)
    }

    fn lemma_from_index(self) {}

    fn from_usize(n: usize) -> Self {
        Self(n)
    }

    fn to_usize(self) -> usize {
        self.0
    }
}

#[derive(Copy, Clone, Debug, Default, PartialEq, Eq, PartialOrd, Ord, Hash)]
struct TestEdgeId(usize);

impl Identifier for TestEdgeId {
    fn spec_index(self) -> usize {
        self.to_usize()
    }

    fn spec_from_index(n: usize) -> Self {
        Self::from_usize(n)
    }

    fn lemma_from_index(self) {}

    fn from_usize(n: usize) -> Self {
        Self(n)
    }

    fn to_usize(self) -> usize {
        self.0
    }
}

type TestGraph = OwningGraph<TestNodeId, TestEdgeId, &'static str, i32>;
type TestNode<'a> = NodeRef<'a, TestNodeId, TestEdgeId, &'static str, i32>;
type TestEdge<'a> = EdgeRef<'a, TestNodeId, TestEdgeId, &'static str, i32>;
type TestNodeMut<'a> = NodeMutRef<'a, TestNodeId, TestEdgeId, &'static str, i32>;

#[test]
fn editor_creates_nodes_edges_and_root() {
    let mut graph = TestGraph::default();

    let root_id = graph.make_node("root");
    let child_id = graph.make_node("child");
    let edge_id = graph.make_edge(root_id, child_id, 7);

    let root = graph.get_node(root_id).unwrap();
    assert_eq!(root.id(), root_id);
    assert_eq!(*root.data(), "root");

    let child = graph.get_node(child_id).unwrap();
    assert_eq!(*child.data(), "child");
    assert!(child.parents().iter().any(|item| item.node_id() == root_id));

    let edge = graph.get_edge(edge_id).unwrap();
    assert_eq!(edge.id(), edge_id);
    assert_eq!(edge.from::<TestNode>().id(), root_id);
    assert_eq!(edge.to::<TestNode>().id(), child_id);
    assert_eq!(*edge.data(), 7);
    assert!(!edge.is_loop());
}

#[test]
fn node_and_edge_iterators_cover_all_items() {
    let mut graph = TestGraph::default();
    let a = graph.make_node("a");
    let b = graph.make_node("b");
    let c = graph.make_node("c");
    graph.make_edge(a, b, 1);
    graph.make_edge(b, c, 2);

    let node_values: HashSet<_> = graph.nodes().iter().map(|node| *node.data()).collect();
    let edge_values: HashSet<_> = graph.edges().iter().map(|edge| *edge.data()).collect();

    assert_eq!(node_values, HashSet::from(["a", "b", "c"]));
    assert_eq!(edge_values, HashSet::from([1, 2]));
}

#[test]
fn mutable_handles_can_update_payloads() {
    let mut graph = TestGraph::default();
    let node_id = graph.make_node("initial");
    let other = graph.make_node("other");
    let edge_id = graph.make_edge(node_id, other, 10);

    *graph.get_node_mut(node_id).unwrap().data() = "updated";
    *graph.get_edge_mut(edge_id).unwrap().data() = 99;

    assert_eq!(*graph.get_node(node_id).unwrap().data(), "updated");
    assert_eq!(*graph.get_edge(edge_id).unwrap().data(), 99);
}

#[test]
fn remove_edge_updates_connected_nodes() {
    let mut graph = TestGraph::default();
    let a = graph.make_node("a");
    let b = graph.make_node("b");
    let edge_id = graph.make_edge(a, b, 3);

    assert_eq!(graph.get_node(a).unwrap().edge_count(), 1);
    assert_eq!(graph.get_node(b).unwrap().edge_count(), 1);

    graph.remove_edge(edge_id);

    assert_eq!(graph.get_node(a).unwrap().edge_count(), 0);
    assert_eq!(graph.get_node(b).unwrap().edge_count(), 0);
    assert_eq!(graph.edges().len(), 0);
}

#[test]
fn make_edge_does_not_overwrite_existing_after_remove() {
    let mut graph = TestGraph::default();
    let a = graph.make_node("a");
    let b = graph.make_node("b");
    let c = graph.make_node("c");
    let d = graph.make_node("d");

    let e0 = graph.make_edge(a, b, 10);
    let _e1 = graph.make_edge(b, c, 20);

    graph.remove_edge(e0);

    let _e2 = graph.make_edge(c, d, 30);

    let edge_values: HashSet<_> = graph.edges().iter().map(|edge| *edge.data()).collect();
    assert_eq!(edge_values, HashSet::from([20, 30]));
    assert_eq!(graph.edges().len(), 2);
}

#[test]
fn merge_nodes_rehomes_outgoing_edges_to_keep() {
    // A -e0-> B -e1-> C
    // merge_nodes(keep=A, remove=B, direct=e0)
    // Expected: A -e1-> C, B has no edges, e0 is gone from both
    let mut graph = TestGraph::default();
    let a = graph.make_node("a");
    let b = graph.make_node("b");
    let c = graph.make_node("c");
    let e0 = graph.make_edge(a, b, 1);
    let e1 = graph.make_edge(b, c, 2);

    graph.merge_nodes(a, b, e0);

    // e0 removed from A and B
    assert!(!graph.get_node(a).unwrap().edge_ids().contains(&e0));
    assert!(!graph.get_node(b).unwrap().edge_ids().contains(&e0));

    // e1 rehomed: now originates from A
    assert_eq!(graph.get_edge(e1).unwrap().from_id(), a);
    assert!(graph.get_node(a).unwrap().edge_ids().contains(&e1));
    assert!(!graph.get_node(b).unwrap().edge_ids().contains(&e1));

    // B has no incident edges
    assert_eq!(graph.get_node(b).unwrap().edge_count(), 0);

    // A has exactly one outgoing edge (e1) to C
    let a_children = graph.get_node(a).unwrap().children();
    assert_eq!(a_children.len(), 1);
    assert_eq!(a_children[0].node_id(), c);
    assert_eq!(a_children[0].edge_id(), e1);
}

#[test]
fn merge_nodes_handles_multiple_outgoing_edges_on_removed_node() {
    // A -e0-> B, B -e1-> C, B -e2-> D
    // merge_nodes(keep=A, remove=B, direct=e0)
    // Expected: A -e1-> C, A -e2-> D, B has no edges
    let mut graph = TestGraph::default();
    let a = graph.make_node("a");
    let b = graph.make_node("b");
    let c = graph.make_node("c");
    let d = graph.make_node("d");
    let e0 = graph.make_edge(a, b, 10);
    let e1 = graph.make_edge(b, c, 20);
    let e2 = graph.make_edge(b, d, 30);

    graph.merge_nodes(a, b, e0);

    assert_eq!(graph.get_node(b).unwrap().edge_count(), 0);

    let a_successors: HashSet<_> = graph
        .get_node(a)
        .unwrap()
        .children()
        .iter()
        .map(|item| item.node_id())
        .collect();
    assert_eq!(a_successors, HashSet::from([c, d]));

    assert_eq!(graph.get_edge(e1).unwrap().from_id(), a);
    assert_eq!(graph.get_edge(e2).unwrap().from_id(), a);
}

#[test]
fn merge_nodes_on_tail_node_leaves_keep_with_no_outgoing_edges() {
    // A -e0-> B (B has no outgoing edges: it is a tail)
    let mut graph = TestGraph::default();
    let a = graph.make_node("a");
    let b = graph.make_node("b");
    let e0 = graph.make_edge(a, b, 1);

    graph.merge_nodes(a, b, e0);

    assert_eq!(graph.get_node(a).unwrap().children().len(), 0);
    assert_eq!(graph.get_node(b).unwrap().edge_count(), 0);
}

#[test]
fn merge_nodes_does_not_touch_incoming_edges_of_keep() {
    // P -ep-> A -e0-> B -e1-> C
    let mut graph = TestGraph::default();
    let p = graph.make_node("p");
    let a = graph.make_node("a");
    let b = graph.make_node("b");
    let c = graph.make_node("c");
    let ep = graph.make_edge(p, a, 0);
    let e0 = graph.make_edge(a, b, 1);
    graph.make_edge(b, c, 2);

    graph.merge_nodes(a, b, e0);

    // ep unchanged: still from P to A
    assert_eq!(graph.get_edge(ep).unwrap().from_id(), p);
    assert_eq!(graph.get_edge(ep).unwrap().to_id(), a);
    assert!(graph.get_node(a).unwrap().edge_ids().contains(&ep));

    // A now has ep (incoming) and e1 (outgoing)
    assert_eq!(graph.get_node(a).unwrap().edge_count(), 2);
}

#[test]
fn directed_dfs_visits_reachable_nodes() {
    let mut graph = TestGraph::default();
    let root = graph.make_node("root");
    let b = graph.make_node("b");
    let c = graph.make_node("c");
    let isolated = graph.make_node("isolated");
    graph.make_edge(root, b, 1);
    graph.make_edge(b, c, 2);

    let mut seen = HashSet::new();
    let mut root_count = 0;

    let mut walk = graph.dfs(root);
    while let Some((edge, node)) = walk.next() {
        if node == root {
            root_count += 1;
            assert!(edge.is_none());
        }
        seen.insert(node);
    }

    assert_eq!(root_count, 1);
    assert!(seen.contains(&root));
    assert!(seen.contains(&b));
    assert!(seen.contains(&c));
    assert!(!seen.contains(&isolated));
}

#[test]
fn undirected_dfs_can_reach_incoming_neighbors() {
    let mut graph = TestGraph::default();
    let root = graph.make_node("root");
    let parent = graph.make_node("parent");
    graph.make_edge(parent, root, 5);

    let mut directed_seen = HashSet::new();
    let mut walk = graph.dfs(root);
    while let Some((_, node)) = walk.next() {
        directed_seen.insert(node);
    }

    let mut undirected_seen = HashSet::new();
    let mut walk = graph.undirected_dfs(root);
    while let Some((_, node)) = walk.next() {
        undirected_seen.insert(node);
    }

    assert!(directed_seen.contains(&root));
    assert!(!directed_seen.contains(&parent));
    assert!(undirected_seen.contains(&root));
    assert!(undirected_seen.contains(&parent));
}

#[test]
fn trait_views_traverse_and_mutate_edges_without_losing_connectivity() {
    let mut graph = TestGraph::default();
    let a = graph.make_node("a");
    let b = graph.make_node("b");
    let loop_node = graph.make_node("loop");
    let edge = graph.make_edge(a, b, 1);
    let loop_edge = graph.make_edge(loop_node, loop_node, 2);

    let a_ref = graph.get_node(a).unwrap();
    assert!(!a_ref.is_leaf());
    assert_eq!(a_ref.edges().len(), 1);
    let children = a_ref.children();
    let step = &children[0];
    assert_eq!(step.edge::<TestEdge>().id(), edge);
    assert_eq!(step.node::<TestNode>().id(), b);
    assert!(graph.get_edge(loop_edge).unwrap().is_loop());

    {
        let mut a_mut = graph.get_node_mut(a).unwrap();
        assert_eq!(a_mut.edge_count(), 1);
        a_mut.remove_edge_id(edge);
        assert!(a_mut.as_ref::<TestNode>().is_leaf());
        a_mut.add_edge_id(edge);
        assert_eq!(a_mut.as_ref::<TestNode>().edge_count(), 1);
    }

    {
        let mut edge_mut = graph.get_edge_mut(edge).unwrap();
        assert_eq!(edge_mut.as_ref::<TestEdge>().to_id(), b);
        assert_eq!(edge_mut.from::<TestNodeMut>().id(), a);
        assert_eq!(edge_mut.to::<TestNodeMut>().id(), b);
        *edge_mut.data() = 9;
        edge_mut.set_from(a);
    }
    assert_eq!(*graph.get_edge(edge).unwrap().data(), 9);
}

#[test]
fn editing_reinterpreting_and_removing_nodes_preserves_graph_invariants() {
    let mut graph = TestGraph::default();
    let a = graph.make_node("a");
    let b = graph.make_node("b");
    let c = graph.make_node("c");
    let edge = graph.make_edge(a, b, 4);

    graph.edit_edge(edge, b, c);
    let edited = graph.get_edge(edge).unwrap();
    assert_eq!(edited.from_id(), b);
    assert_eq!(edited.to_id(), c);
    assert_eq!(graph.get_node(a).unwrap().edge_count(), 0);
    assert_eq!(graph.get_node(b).unwrap().edge_count(), 1);
    assert_eq!(graph.get_node(c).unwrap().edge_count(), 1);

    let reinterpreted = graph.reinterpret(|node| node.len(), |edge| edge * 10);
    assert_eq!(*reinterpreted.get_node(a).unwrap().data(), 1);
    assert_eq!(*reinterpreted.get_edge(edge).unwrap().data(), 40);

    graph.remove_node(b);
    assert!(graph.get_node(b).is_none());
    assert!(graph.get_edge(edge).is_none());
    assert_eq!(graph.get_node(c).unwrap().edge_count(), 0);
}

#[test]
fn a_loop_is_listed_once_and_goes_with_its_node() {
    let mut graph = TestGraph::default();
    let a = graph.make_node("a");
    let edge = graph.make_edge(a, a, 1);
    assert_eq!(graph.get_node(a).unwrap().edge_ids(), &vec![edge]);
    graph.remove_node(a);
    assert!(graph.get_edge(edge).is_none());
    assert_eq!(graph.make_node("b"), TestNodeId(1));
    assert_eq!(graph.nodes().len(), 1);
}

#[test]
fn a_node_merged_into_itself_loses_its_outgoing_edges() {
    let mut graph = TestGraph::default();
    let a = graph.make_node("a");
    let b = graph.make_node("b");
    let incoming = graph.make_edge(b, a, 1);
    let direct = graph.make_edge(a, a, 2);
    let outgoing = graph.make_edge(a, b, 3);

    graph.merge_nodes(a, a, direct);

    assert_eq!(graph.get_node(a).unwrap().edge_ids(), &vec![incoming]);
    assert_eq!(graph.get_node(b).unwrap().edge_ids(), &vec![incoming, outgoing]);
    assert_eq!(graph.get_edge(outgoing).unwrap().from_id(), a);
}
