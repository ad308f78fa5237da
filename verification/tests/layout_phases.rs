use jstd::graph::node::Node;
use jstd::graph::parse::{ParseErrorKind, TestGraph};
use jstd::registry::Identifier;
use jstd::graph::edge::Edge;
use jstd::graph::owning::OwningGraph;
use jstd::triskel::component::{arrange, is_connected, weakly_connected_components};
use jstd::triskel::cycle::break_cycles;
use jstd::triskel::hammock::{compute_hammocks, Hammock};
use jstd::triskel::lanes::{Item, Layer, Net, Slot};
use jstd::triskel::layout_graph::{layer_of, EdgeLayoutData, LayoutGraph, NodeLayoutData};
use jstd::triskel::order::order;
use jstd::triskel::rank::{assign_ranks, component, cut_values, network_simplex, RankEdge};
use jstd::triskel::segment::{build_segments, SegmentInfo};
use rustc_hash::{FxHashMap, FxHashSet};

// Parsing.

#[test]
fn parse_supports_implicit_and_explicit_node_declarations() {
    let source = "v0\nv1 [Hello World]\nv0 -> v1\nv1 -> v2 [Hello, World]";
    let graph = match TestGraph::parse(source) {
        Ok(graph) => graph,
        Err(_) => panic!("parse should succeed"),
    };

    assert_eq!(graph.nodes().len(), 3);
    assert_eq!(graph.edges().len(), 2);

    assert_eq!(*graph.get_node(0).unwrap().data(), "v0");
    assert_eq!(*graph.get_node(1).unwrap().data(), "Hello World");
    assert_eq!(*graph.get_node(2).unwrap().data(), "v2");

    assert_eq!(*graph.get_edge(0).unwrap().data(), "v0 -> v1");
    assert_eq!(*graph.get_edge(1).unwrap().data(), "Hello, World");

    assert_eq!(graph.get_node_by_name("Hello World"), Some(1));
    assert_eq!(graph.get_node_by_name("v1"), None);
    assert_eq!(graph.get_edge_by_data("Hello, World"), Some(1));
    assert_eq!(graph.get_edge_by_data("Hello"), None);
}

#[test]
fn parse_declares_missing_nodes_from_edge_declarations() {
    let source = "a -> b";
    let graph = match TestGraph::parse(source) {
        Ok(graph) => graph,
        Err(_) => panic!("parse should succeed"),
    };

    assert_eq!(graph.nodes().len(), 2);
    assert_eq!(*graph.get_node(0).unwrap().data(), "a");
    assert_eq!(*graph.get_node(1).unwrap().data(), "b");
    assert_eq!(graph.edges().len(), 1);
}

#[test]
fn parse_updates_existing_node_data_on_explicit_redeclaration() {
    let source = "a -> b\nb [Bee]";
    let graph = match TestGraph::parse(source) {
        Ok(graph) => graph,
        Err(_) => panic!("parse should succeed"),
    };

    assert_eq!(graph.nodes().len(), 2);
    assert_eq!(*graph.get_node(1).unwrap().data(), "Bee");
}

#[test]
fn parse_reports_invalid_declarations() {
    let node_error = match TestGraph::parse("v0 [") {
        Ok(_) => panic!("node declaration should fail"),
        Err(error) => error,
    };
    assert_eq!(node_error.line_number, 1);
    assert_eq!(node_error.kind, ParseErrorKind::InvalidNodeDeclaration);

    let edge_error = match TestGraph::parse("v0 -> [label]") {
        Ok(_) => panic!("edge declaration should fail"),
        Err(error) => error,
    };
    assert_eq!(edge_error.line_number, 1);
    assert_eq!(edge_error.kind, ParseErrorKind::InvalidEdgeDeclaration);
}

#[test]
fn parse_skips_blank_lines_and_reports_the_line_as_written() {
    let error = match TestGraph::parse("a\r\n\u{a0}\n\n  b [x] y \r\nc") {
        Ok(_) => panic!("text behind the data should fail"),
        Err(error) => error,
    };
    assert_eq!(error.line_number, 4);
    assert_eq!(error.line, "  b [x] y ");
}

// Hammocks.

#[derive(Copy, Clone, Debug, PartialEq, Eq, PartialOrd, Ord, Hash)]
struct N(usize);

impl Identifier for N {
    fn spec_index(self) -> usize {
        self.to_usize()
    }

    fn spec_from_index(n: usize) -> Self {
        Self::from_usize(n)
    }

    fn lemma_from_index(self) {}

    fn from_usize(n: usize) -> Self {
        Self(n)
    }

    fn to_usize(self) -> usize {
        self.0
    }
}

#[derive(Copy, Clone, Debug, PartialEq, Eq, PartialOrd, Ord, Hash)]
struct E(usize);

impl Identifier for E {
    fn spec_index(self) -> usize {
        self.to_usize()
    }

    fn spec_from_index(n: usize) -> Self {
        Self::from_usize(n)
    }

    fn lemma_from_index(self) {}

    fn from_usize(n: usize) -> Self {
        Self(n)
    }

    fn to_usize(self) -> usize {
        self.0
    }
}

type G = OwningGraph<N, E, (), ()>;

fn join(g: &mut G, from: N, to: N) {
    g.make_edge(from, to, ());
}

fn nodes(hammock: &Hammock<N, E>) -> Vec<usize> {
    hammock.nodes.iter().map(|n| n.0).collect()
}

fn verify_boundaries(g: &G, hammocks: &[Hammock<N, E>]) {
    for hammock in hammocks {
        let inside: std::collections::HashSet<_> = hammock.nodes.iter().copied().collect();
        let entry = g.get_edge(hammock.entry_edge).unwrap().to_id();
        let exit = g.get_edge(hammock.exit_edge).unwrap().to_id();
        assert!(inside.contains(&entry));
        assert!(!inside.contains(&exit));
        for edge in g.edges() {
            let from = inside.contains(&edge.from_id());
            let to = inside.contains(&edge.to_id());
            if !from && to {
                assert_eq!(edge.to_id(), entry, "side entry");
            }
            if from && !to {
                assert_eq!(edge.to_id(), exit, "side exit");
            }
        }
    }
}

#[test]
fn detects_multiple_exit_sources_with_one_target() {
    let mut g = G::default();
    let n: Vec<_> = (0..7).map(|_| g.make_node(())).collect();
    join(&mut g, n[0], n[1]);
    join(&mut g, n[1], n[2]);
    join(&mut g, n[1], n[3]);
    join(&mut g, n[2], n[4]);
    join(&mut g, n[3], n[4]);
    join(&mut g, n[2], n[5]);
    join(&mut g, n[4], n[5]);
    join(&mut g, n[0], n[5]);
    join(&mut g, n[5], n[6]);
    let result = compute_hammocks(&g, &n, n[0]);
    assert!(
        result.iter().any(|h| nodes(h) == vec![1, 2, 3, 4]),
        "{:?}",
        result.iter().map(nodes).collect::<Vec<_>>()
    );
    verify_boundaries(&g, &result);
}

#[test]
fn detects_type_a_exit_with_unrelated_predecessor() {
    let mut g = G::default();
    let n: Vec<_> = (0..7).map(|_| g.make_node(())).collect();
    join(&mut g, n[0], n[1]);
    join(&mut g, n[0], n[2]);
    join(&mut g, n[1], n[3]);
    join(&mut g, n[3], n[4]);
    join(&mut g, n[4], n[5]);
    join(&mut g, n[2], n[5]);
    join(&mut g, n[5], n[6]);
    let result = compute_hammocks(&g, &n, n[0]);
    assert!(result.iter().any(|h| nodes(h) == vec![1, 3, 4]));
    verify_boundaries(&g, &result);
}

#[test]
fn detects_loop_hammock() {
    let mut g = G::default();
    let n: Vec<_> = (0..6).map(|_| g.make_node(())).collect();
    join(&mut g, n[0], n[1]);
    join(&mut g, n[1], n[2]);
    join(&mut g, n[2], n[3]);
    join(&mut g, n[3], n[2]);
    join(&mut g, n[2], n[4]);
    join(&mut g, n[3], n[4]);
    join(&mut g, n[0], n[4]);
    join(&mut g, n[4], n[5]);
    let result = compute_hammocks(&g, &n, n[0]);
    assert!(
        result.iter().any(|h| nodes(h) == vec![1, 2, 3]),
        "{:?}",
        result.iter().map(nodes).collect::<Vec<_>>()
    );
    verify_boundaries(&g, &result);
}

#[test]
fn chooses_outer_nested_hammock_deterministically() {
    let mut g = G::default();
    let n: Vec<_> = (0..7).map(|_| g.make_node(())).collect();
    for pair in n.windows(2) {
        join(&mut g, pair[0], pair[1]);
    }
    let first = compute_hammocks(&g, &n, n[0]);
    let second = compute_hammocks(&g, &n, n[0]);
    assert_eq!(first.len(), second.len());
    for (a, b) in first.iter().zip(second.iter()) {
        assert_eq!((&a.nodes, a.entry_edge, a.exit_edge), (&b.nodes, b.entry_edge, b.exit_edge));
    }
    assert_eq!(first.len(), 1);
    assert_eq!(nodes(&first[0]), vec![1, 2, 3, 4, 5]);
    verify_boundaries(&g, &first);
}

#[test]
fn supports_parallel_edges_and_self_loops() {
    let mut g = G::default();
    let n: Vec<_> = (0..5).map(|_| g.make_node(())).collect();
    join(&mut g, n[0], n[1]);
    join(&mut g, n[0], n[1]);
    join(&mut g, n[1], n[1]);
    join(&mut g, n[1], n[2]);
    join(&mut g, n[2], n[3]);
    join(&mut g, n[3], n[4]);
    let result = compute_hammocks(&g, &n, n[0]);
    assert_eq!(nodes(&result[0]), vec![1, 2, 3]);
    verify_boundaries(&g, &result);
}

#[test]
fn rejects_side_entry_into_internal_node() {
    let mut g = G::default();
    let n: Vec<_> = (0..7).map(|_| g.make_node(())).collect();
    join(&mut g, n[0], n[1]);
    join(&mut g, n[0], n[2]);
    join(&mut g, n[1], n[3]);
    join(&mut g, n[3], n[4]);
    join(&mut g, n[2], n[4]);
    join(&mut g, n[4], n[5]);
    join(&mut g, n[5], n[6]);
    let result = compute_hammocks(&g, &n, n[0]);
    assert!(!result.iter().any(|h| h.nodes.contains(&n[3]) && h.nodes.contains(&n[4])));
    verify_boundaries(&g, &result);
}

#[test]
fn rejects_different_external_exit_targets() {
    let mut g = G::default();
    let n: Vec<_> = (0..7).map(|_| g.make_node(())).collect();
    join(&mut g, n[0], n[1]);
    join(&mut g, n[1], n[2]);
    join(&mut g, n[1], n[3]);
    join(&mut g, n[2], n[4]);
    join(&mut g, n[3], n[5]);
    join(&mut g, n[4], n[6]);
    join(&mut g, n[5], n[6]);
    let result = compute_hammocks(&g, &n, n[0]);
    assert!(
        !result.iter().any(|h| nodes(h) == vec![1, 2, 3]),
        "{:?}",
        result.iter().map(nodes).collect::<Vec<_>>()
    );
    verify_boundaries(&g, &result);
}

#[test]
fn rejects_nonterminating_component_without_sink() {
    let mut g = G::default();
    let n: Vec<_> = (0..3).map(|_| g.make_node(())).collect();
    join(&mut g, n[0], n[1]);
    join(&mut g, n[1], n[2]);
    join(&mut g, n[2], n[1]);
    assert!(compute_hammocks(&g, &n, n[0]).is_empty());
}

#[test]
fn rejects_nodes_unreachable_from_selected_root() {
    let mut g = G::default();
    let n: Vec<_> = (0..4).map(|_| g.make_node(())).collect();
    join(&mut g, n[0], n[1]);
    join(&mut g, n[2], n[1]);
    join(&mut g, n[1], n[3]);
    assert!(compute_hammocks(&g, &n, n[0]).is_empty());
}

#[test]
fn multiple_returns_do_not_expose_synthetic_exit() {
    let mut g = G::default();
    let n: Vec<_> = (0..6).map(|_| g.make_node(())).collect();
    join(&mut g, n[0], n[1]);
    join(&mut g, n[1], n[2]);
    join(&mut g, n[1], n[3]);
    join(&mut g, n[2], n[4]);
    join(&mut g, n[3], n[5]);
    let result = compute_hammocks(&g, &n, n[0]);
    verify_boundaries(&g, &result);
    for hammock in result {
        assert!(g.get_edge(hammock.entry_edge).is_some());
        assert!(g.get_edge(hammock.exit_edge).is_some());
    }
}

// Ranks.

fn edge(tail: usize, head: usize, minlen: i64, weight: i64) -> RankEdge {
    RankEdge { tail, head, minlen, weight }
}

#[test]
fn network_simplex_returns_normalized_feasible_ranks() {
    let edges =
        vec![edge(0, 1, 2, 1), edge(0, 2, 1, 3), edge(1, 3, 1, 2), edge(2, 3, 2, 1)];

    let ranks = network_simplex(4, &edges);
    assert_eq!(ranks.iter().min(), Some(&0));
    for edge in &edges {
        assert!(edge.slack(&ranks) >= 0, "edge has negative slack");
    }
}

#[test]
fn network_simplex_is_cheaper_than_longest_paths() {
    // Longest paths would leave node 3 at the top, two ranks above node 2.
    let edges = vec![edge(0, 1, 1, 1), edge(1, 2, 1, 1), edge(3, 2, 1, 5)];
    assert_eq!(network_simplex(4, &edges), vec![0, 1, 2, 1]);
    // Node 1 has as much weight in as out, and moves to the middle.
    let edges = vec![edge(0, 1, 1, 1), edge(1, 2, 1, 1), edge(0, 2, 4, 1)];
    assert_eq!(network_simplex(3, &edges), vec![0, 2, 4]);
}

#[test]
fn assign_ranks_handles_empty_isolated_and_weighted_graphs() {
    let mut graph = LayoutGraph::default();
    assign_ranks(&mut graph);

    let isolated = graph.make_node(NodeLayoutData::default());
    assign_ranks(&mut graph);
    assert_eq!(graph.get_node(isolated).unwrap().data().rank, 0);

    let mut graph = LayoutGraph::default();
    let source = graph.make_node(NodeLayoutData::default());
    let target = graph.make_node(NodeLayoutData::default());
    graph.make_edge(
        source,
        target,
        EdgeLayoutData { minlen: 3, weight: 2, ..Default::default() },
    );
    assign_ranks(&mut graph);

    let source_rank = graph.get_node(source).unwrap().data().rank;
    let target_rank = graph.get_node(target).unwrap().data().rank;
    assert!(source_rank >= 0);
    assert!(target_rank - source_rank >= 3);
}

#[test]
fn component_and_cut_values_respect_a_removed_tree_edge() {
    let edges = vec![edge(0, 1, 1, 1), edge(1, 2, 1, 1), edge(0, 2, 1, 4)];
    let tree: FxHashSet<usize> = [0, 1].into_iter().collect();
    let head_component: FxHashSet<usize> = [2].into_iter().collect();
    let tail_component: FxHashSet<usize> = [0, 1].into_iter().collect();

    assert_eq!(component(3, &edges, &tree, 1, true), head_component);
    assert_eq!(component(3, &edges, &tree, 1, false), tail_component);
    let values: FxHashMap<usize, i64> = cut_values(3, &edges, &tree);
    assert_eq!(values.get(&1), Some(&5));
}

// Segments.

/// A long edge spanning many ranks costs a p- and a q-vertex, not one per
/// intermediate rank.
#[test]
fn long_edge_uses_two_dummies_regardless_of_span() {
    let mut g = LayoutGraph::default();
    let n: Vec<usize> = (0..6).map(|_| g.make_node(NodeLayoutData::default())).collect();
    for w in n.windows(2) {
        g.make_edge(w[0], w[1], EdgeLayoutData::default());
    }
    // Edge spanning all 5 rank-steps (ranks 0..5).
    g.make_edge(n[0], n[5], EdgeLayoutData::default());

    assign_ranks(&mut g);
    let info = build_segments(&mut g);

    let dummies = g.nodes().iter().filter(|node| node.data().is_dummy).count();
    assert_eq!(dummies, 2, "span-5 long edge must use exactly 2 dummies");
    assert_eq!(info.pvertices.len(), 1);
    assert_eq!(info.qvertices.len(), 1);
}

#[test]
fn an_edge_over_two_ranks_uses_one_dummy() {
    let mut g = LayoutGraph::default();
    let n: Vec<usize> = (0..3).map(|_| g.make_node(NodeLayoutData::default())).collect();
    g.make_edge(n[0], n[1], EdgeLayoutData::default());
    g.make_edge(n[1], n[2], EdgeLayoutData::default());
    let long = g.make_edge(n[0], n[2], EdgeLayoutData { orig: 7, ..Default::default() });
    assign_ranks(&mut g);
    let info = build_segments(&mut g);
    assert!(info.pvertices.is_empty() && info.qvertices.is_empty());
    assert!(g.get_edge(long).is_none());
    assert_eq!(g.nodes().len(), 4);
    assert_eq!(layer_of(&g, 3), 1);
    assert_eq!(g.edges().iter().filter(|e| e.data().orig == 7).count(), 2);
}

// Cycles.

#[test]
fn a_back_edge_is_replaced_by_its_gadget() {
    let mut g = LayoutGraph::default();
    let a = g.make_node(NodeLayoutData::default());
    let b = g.make_node(NodeLayoutData::default());
    g.make_edge(a, b, EdgeLayoutData::default());
    let back = g.make_edge(b, a, EdgeLayoutData { orig: 5, ..Default::default() });
    break_cycles(&mut g, a);
    assert!(g.get_edge(back).is_none());
    assert_eq!(g.nodes().len(), 4);
    let reversed: Vec<(usize, usize)> = g
        .edges()
        .iter()
        .filter(|e| e.data().reversed)
        .map(|e| {
            assert_eq!(e.data().orig, 5);
            (e.from_id(), e.to_id())
        })
        .collect();
    assert_eq!(reversed, vec![(2, a), (b, 3), (2, 3)]);
}

// Orders.

/// The edges of a graph, by number, that are replaced when it is searched from `root`.
fn replaced(n: usize, pairs: &[(usize, usize)], root: usize) -> Vec<usize> {
    let mut graph = LayoutGraph::default();
    for _ in 0..n {
        graph.make_node(NodeLayoutData::default());
    }
    for (orig, &(from, to)) in pairs.iter().enumerate() {
        graph.make_edge(from, to, EdgeLayoutData { orig, ..EdgeLayoutData::default() });
    }
    break_cycles(&mut graph, root);
    (0..pairs.len()).filter(|&e| graph.get_edge(e).is_none()).collect()
}

#[test]
fn edges_to_nodes_above_are_the_back_edges() {
    // A loop below the root: the edge back to its header is replaced.
    assert_eq!(replaced(3, &[(0, 1), (1, 2), (2, 1)], 0), vec![2]);
    // Out-edges are followed in the order of their identifiers.
    assert_eq!(replaced(3, &[(0, 1), (0, 2), (1, 2), (2, 1)], 0), vec![3]);
    assert_eq!(replaced(3, &[(0, 2), (0, 1), (1, 2), (2, 1)], 0), vec![2]);
    // What the root does not reach is searched in the order of the nodes.
    assert_eq!(replaced(3, &[(2, 1), (1, 2), (1, 0)], 0), vec![0]);
    // Loops stay.
    assert_eq!(replaced(2, &[(1, 1), (0, 1)], 0), Vec::<usize>::new());
}

struct Links {
    back: Vec<Vec<usize>>,
    ahead: Vec<Vec<usize>>,
    none: FxHashSet<usize>,
    orders: Vec<usize>,
}

fn links(graph: &LayoutGraph) -> Links {
    let nodes = graph.nodes();
    Links {
        back: nodes.iter().map(|n| n.parents().iter().map(|p| p.node_id()).collect()).collect(),
        ahead: nodes.iter().map(|n| n.children().iter().map(|c| c.node_id()).collect()).collect(),
        none: FxHashSet::default(),
        orders: nodes.iter().map(|n| n.data().order).collect(),
    }
}

fn net(links: &Links, reversed: bool) -> Net<'_> {
    if reversed {
        Net {
            back: &links.ahead,
            ahead: &links.back,
            pvertices: &links.none,
            qvertices: &links.none,
        }
    } else {
        Net {
            back: &links.back,
            ahead: &links.ahead,
            pvertices: &links.none,
            qvertices: &links.none,
        }
    }
}

fn at(rank: i64, order: usize) -> NodeLayoutData {
    NodeLayoutData { rank, order, ..Default::default() }
}

#[test]
fn crossing_score_uses_sweep_direction() {
    // a,b (top) -> c,d (bottom), with a->d and b->c crossing once.
    let mut graph = LayoutGraph::default();
    let a = graph.make_node(at(0, 0));
    let b = graph.make_node(at(0, 1));
    let c = graph.make_node(at(1, 0));
    let d = graph.make_node(at(1, 1));
    graph.make_edge(a, d, EdgeLayoutData::default());
    graph.make_edge(b, c, EdgeLayoutData::default());
    let links = links(&graph);

    let bottom = Layer { items: vec![Item::Vertex(c), Item::Vertex(d)] };
    assert_eq!(net(&links, false).count_crossings(&links.orders, &bottom), 1);

    // The same geometric crossing viewed upward must score identically.
    let top = Layer { items: vec![Item::Vertex(a), Item::Vertex(b)] };
    assert_eq!(net(&links, true).count_crossings(&links.orders, &top), 1);
}

#[test]
fn transpose_strictly_improves_an_adjacent_crossing() {
    let mut graph = LayoutGraph::default();
    let a = graph.make_node(at(0, 0));
    let b = graph.make_node(at(0, 1));
    let c = graph.make_node(at(1, 0));
    let d = graph.make_node(at(1, 1));
    graph.make_edge(a, d, EdgeLayoutData::default());
    graph.make_edge(b, c, EdgeLayoutData::default());
    let mut layer = Layer {
        items: vec![
            Item::Container(Vec::new(), 0),
            Item::Vertex(c),
            Item::Container(Vec::new(), 0),
            Item::Vertex(d),
            Item::Container(Vec::new(), 0),
        ],
    };
    let links = links(&graph);
    let mut orders = links.orders.clone();
    let ctx = net(&links, false);
    assert_eq!(ctx.count_crossings(&orders, &layer), 1);
    ctx.transpose(&mut orders, &mut layer);
    assert_eq!(ctx.count_crossings(&orders, &layer), 0);
    let vertices: Vec<_> = layer
        .items
        .iter()
        .filter_map(|item| match item {
            Item::Vertex(id) => Some(*id),
            _ => None,
        })
        .collect();
    assert_eq!(vertices, vec![d, c]);
}

#[test]
fn crossing_score_matches_bruteforce_for_two_by_two_bipartite_graphs() {
    let permutations = [[0usize, 1], [1, 0]];
    for mask in 0u8..16 {
        for top_order in permutations {
            for bottom_order in permutations {
                let mut graph = LayoutGraph::default();
                let top: Vec<_> =
                    (0..2).map(|_| graph.make_node(NodeLayoutData::default())).collect();
                let bottom: Vec<_> =
                    (0..2).map(|_| graph.make_node(NodeLayoutData::default())).collect();
                let mut top_pos = [0usize; 2];
                let mut bottom_pos = [0usize; 2];
                for (position, index) in top_order.into_iter().enumerate() {
                    top_pos[index] = position;
                    graph.get_node_mut(top[index]).unwrap().data().order = position;
                }
                for (position, index) in bottom_order.into_iter().enumerate() {
                    bottom_pos[index] = position;
                    graph.get_node_mut(bottom[index]).unwrap().data().order = position;
                }
                let mut edges = Vec::new();
                for (source, &source_id) in top.iter().enumerate() {
                    for (target, &target_id) in bottom.iter().enumerate() {
                        if mask & (1 << (source * 2 + target)) != 0 {
                            graph.make_edge(source_id, target_id, EdgeLayoutData::default());
                            edges.push((source, target));
                        }
                    }
                }
                let expected = edges
                    .iter()
                    .enumerate()
                    .map(|(i, &(a_source, a_target))| {
                        edges[i + 1..]
                            .iter()
                            .filter(|&&(b_source, b_target)| {
                                (top_pos[a_source] < top_pos[b_source]
                                    && bottom_pos[a_target] > bottom_pos[b_target])
                                    || (top_pos[a_source] > top_pos[b_source]
                                        && bottom_pos[a_target] < bottom_pos[b_target])
                            })
                            .count()
                    })
                    .sum::<usize>();
                let lower = Layer {
                    items: bottom_order.into_iter().map(|i| Item::Vertex(bottom[i])).collect(),
                };
                let upper = Layer {
                    items: top_order.into_iter().map(|i| Item::Vertex(top[i])).collect(),
                };
                let links = links(&graph);
                assert_eq!(
                    net(&links, false).count_crossings(&links.orders, &lower),
                    expected,
                    "downward mask={mask:04b}, top={top_order:?}, bottom={bottom_order:?}"
                );
                assert_eq!(
                    net(&links, true).count_crossings(&links.orders, &upper),
                    expected,
                    "upward mask={mask:04b}, top={top_order:?}, bottom={bottom_order:?}"
                );
            }
        }
    }
}

fn chain_with_long_edge() -> (LayoutGraph, Vec<usize>) {
    let mut graph = LayoutGraph::default();
    let nodes: Vec<_> = (0..5).map(|_| graph.make_node(NodeLayoutData::default())).collect();
    for pair in nodes.windows(2) {
        graph.make_edge(pair[0], pair[1], EdgeLayoutData::default());
    }
    graph.make_edge(nodes[0], nodes[4], EdgeLayoutData::default());
    (graph, nodes)
}

fn check_slots(
    graph: &LayoutGraph,
    segments: &SegmentInfo,
    layers: &[Vec<usize>],
    slots: &[Vec<Slot>],
) {
    assert_eq!(layers.len(), slots.len());
    let mut vertices = Vec::new();
    for (rank, row) in slots.iter().enumerate() {
        for slot in row {
            if let Slot::Vertex(id) = slot {
                assert_eq!(layer_of(graph, *id), rank);
                vertices.push(*id);
            }
        }
    }
    vertices.sort();
    assert_eq!(vertices, graph.nodes().iter().map(|node| node.id()).collect::<Vec<_>>());
    for &q in &segments.qvertices {
        let p = graph.get_node(q).unwrap().parents()[0].node_id();
        let expected: Vec<usize> = (layer_of(graph, p) + 1..layer_of(graph, q)).collect();
        let found: Vec<usize> = slots
            .iter()
            .enumerate()
            .flat_map(|(rank, row)| {
                row.iter().filter(|slot| **slot == Slot::Segment(q)).map(move |_| rank)
            })
            .collect();
        assert_eq!(found, expected);
    }
}

#[test]
fn slots_contain_each_vertex_and_each_active_segment_lane_once() {
    let (mut graph, nodes) = chain_with_long_edge();
    assign_ranks(&mut graph);
    let segments = build_segments(&mut graph);
    let ordering = order(&mut graph, &segments, nodes[0], 4);

    check_slots(&graph, &segments, &ordering.layers, &ordering.slots);
    let q = *segments.qvertices.iter().next().unwrap();
    let lane_ranks: Vec<_> = ordering
        .slots
        .iter()
        .enumerate()
        .filter_map(|(rank, row)| {
            if row.iter().any(|slot| matches!(slot, Slot::Segment(id) if *id == q)) {
                Some(rank)
            } else {
                None
            }
        })
        .collect();
    assert_eq!(lane_ranks, vec![2]);
}

#[test]
fn ordering_uncrosses_two_crossing_edges() {
    let mut graph = LayoutGraph::default();
    let n: Vec<usize> = (0..5).map(|_| graph.make_node(NodeLayoutData::default())).collect();
    // n0 above n1 and n2, which lead to n4 and n3.
    graph.make_edge(n[0], n[1], EdgeLayoutData::default());
    graph.make_edge(n[0], n[2], EdgeLayoutData::default());
    graph.make_edge(n[1], n[4], EdgeLayoutData::default());
    graph.make_edge(n[2], n[3], EdgeLayoutData::default());
    let arranged = arrange(&mut graph, n[0], 4).unwrap();
    let rows = arranged.rows.layers;
    assert_eq!(rows[0], vec![0]);
    let middle: Vec<usize> = rows[1].clone();
    let bottom: Vec<usize> = rows[2].clone();
    let expected = if middle == vec![1, 2] { vec![4, 3] } else { vec![3, 4] };
    assert_eq!(bottom, expected);
    assert!(arranged.segments.pvertices.is_empty());
}

#[test]
fn arranging_a_cycle_keeps_its_root_on_top() {
    let mut graph = LayoutGraph::default();
    let n: Vec<usize> = (0..3).map(|_| graph.make_node(NodeLayoutData::default())).collect();
    graph.make_edge(n[2], n[0], EdgeLayoutData::default());
    graph.make_edge(n[0], n[1], EdgeLayoutData::default());
    graph.make_edge(n[1], n[2], EdgeLayoutData::default());
    assert!(is_connected(&graph));
    let arranged = arrange(&mut graph, n[2], 2).unwrap();
    let ranks: Vec<usize> = n.iter().map(|&v| layer_of(&graph, v)).collect();
    assert!(ranks[2] < ranks[0] && ranks[0] < ranks[1]);
    check_slots(&graph, &arranged.segments, &arranged.rows.layers, &arranged.rows.slots);
}

#[test]
fn components_are_sorted_lists_of_connected_nodes() {
    let mut g = G::default();
    let n: Vec<_> = (0..5).map(|_| g.make_node(())).collect();
    join(&mut g, n[4], n[0]);
    join(&mut g, n[3], n[1]);
    let lists = weakly_connected_components(&g);
    assert_eq!(lists, vec![vec![N(0), N(4)], vec![N(1), N(3)], vec![N(2)]]);
    let mut parts = LayoutGraph::default();
    parts.make_node(NodeLayoutData::default());
    assert!(is_connected(&parts));
    parts.make_node(NodeLayoutData::default());
    assert!(!is_connected(&parts));
}
