use jstd::derive::{backing_of, round_trip, Backing, Shape};
use jstd::graph::analysis::sese::IEdge;
use jstd::graph::owning::OwningGraph;
use jstd::graph::parse::TestGraph;
use jstd::options::{parse_options, OptionsError};
use jstd::registry::Identifier;
use jstd::triskel::alignment::{chain_groups, mark_type1, vertical_align};
use jstd::triskel::cells::{build_cells, CellLink, Cells};
use jstd::triskel::chains::{
    collect_groups, collect_pieces, ordered_in_edges, ordered_out_edges, trace_way,
};
use jstd::triskel::channel::{assign_lanes, nest_loops};
use jstd::triskel::component::{arrange, build_component, is_connected, is_small_enough};
use jstd::triskel::dot::normalize_dot;
use jstd::triskel::energy::{
    check_size, depths, plan_energy, EnergyAttraction, EnergyLayoutError, Spring,
};
use jstd::triskel::hammock::compute_hammocks;
use jstd::triskel::layout::{check_not_empty, pick_root, LayoutError, LayoutMode};
use jstd::triskel::layout_graph::{layer_of, LayoutGraph};
use jstd::triskel::quotient::{inspect_region, quotient_graph, RegionPortId};
use jstd::triskel::raster::Canvas;
use jstd::triskel::region_tree::{
    compute_layout_sese_tree, compute_sese_candidates_normalized, compute_sese_normalized,
    has_useful_region, layout_regions,
};
use jstd::triskel::render::escape_html;
use jstd::triskel::router::EdgeStyle;
use jstd::triskel::tree_index::build_tree_index;

#[derive(Copy, Clone, Debug, PartialEq, Eq)]
struct N(usize);

impl Identifier for N {
    fn spec_index(self) -> usize {
        self.0
    }

    fn spec_from_index(n: usize) -> Self {
        Self(n)
    }

    fn lemma_from_index(self) {}

    fn from_usize(n: usize) -> Self {
        Self(n)
    }

    fn to_usize(self) -> usize {
        self.0
    }
}

#[derive(Copy, Clone, Debug, PartialEq, Eq)]
struct E(usize);

impl Identifier for E {
    fn spec_index(self) -> usize {
        self.0
    }

    fn spec_from_index(n: usize) -> Self {
        Self(n)
    }

    fn lemma_from_index(self) {}

    fn from_usize(n: usize) -> Self {
        Self(n)
    }

    fn to_usize(self) -> usize {
        self.0
    }
}

type G = OwningGraph<N, E, (), ()>;

fn numbered(pairs: &[(usize, usize)]) -> Vec<IEdge> {
    pairs.iter().map(|&(from, to)| IEdge { from, to }).collect()
}

fn component_graph(n: usize, pairs: &[(usize, usize)]) -> LayoutGraph {
    build_component(n, &numbered(pairs), &vec![(None, None); pairs.len()]).0
}

/// The layers of the first `n` nodes after arranging from `root`.
fn arranged_layers(n: usize, pairs: &[(usize, usize)], root: usize) -> Vec<usize> {
    let mut graph = component_graph(n, pairs);
    assert!(arrange(&mut graph, root, 8).is_some());
    (0..n).map(|v| layer_of(&graph, v)).collect()
}

// DOT.

#[test]
fn normalizes_wrapped_dot_attributes_and_edge_chains() {
    let source = r#"digraph sample {
            // ignored
            a [label="A"];
            a -> b -> c [color=red];
        }"#;
    let normalized = normalize_dot(source);
    let graph = match TestGraph::parse(&normalized) {
        Ok(graph) => graph,
        Err(_) => panic!("the text should parse"),
    };
    assert_eq!(graph.nodes().len(), 3);
    assert_eq!(graph.edges().len(), 2);
}

#[test]
fn dot_styling_is_dropped() {
    let source = "strict digraph g { node [shape=box]; edge [w=1]; rankdir=LR; subgraph x { p } q -> r // s\n }";
    assert_eq!(normalize_dot(source), "p\nq -> r");
    assert_eq!(normalize_dot("a [x=1] -> b [y];b->;"), "a -> b");
    assert_eq!(normalize_dot(""), "");
}

#[test]
fn names_end_at_unicode_white_space() {
    let white = [
        0x09, 0x0b, 0x0c, 0x20, 0x85, 0xa0, 0x1680, 0x2000, 0x2005, 0x200a, 0x2028, 0x2029,
        0x202f, 0x205f, 0x3000,
    ];
    for code in white {
        let space = char::from_u32(code).unwrap();
        assert_eq!(normalize_dot(&format!("{space}a{space};b")), "a\nb");
    }
    for code in (0x80..0x3100).chain(0xfe00..0x10000) {
        let c = char::from_u32(code).unwrap();
        assert_eq!(normalize_dot(&format!("a{c}")) == "a", c.is_whitespace());
    }
    for code in [0x08, 0x0e, 0x1f, 0x21, 0x180e, 0x1fff, 0x200b, 0x202a, 0x2060, 0x3001, 0xfeff] {
        let other = char::from_u32(code).unwrap();
        let text = format!("a{other}");
        assert_eq!(normalize_dot(&text), text);
    }
}

// Choices.

#[test]
fn layout_empty_graph_errors() {
    assert_eq!(check_not_empty(0), Err(LayoutError::EmptyGraph));
    assert_eq!(check_not_empty(1), Ok(()));
    assert_eq!(LayoutError::EmptyGraph.message(), "cannot lay out an empty graph");
    assert_eq!(LayoutMode::default(), LayoutMode::Flat);
    assert_eq!(EdgeStyle::default(), EdgeStyle::Orthogonal);
}

#[test]
fn the_root_is_the_preferred_node_or_the_first() {
    let component = vec![N(4), N(2), N(7)];
    assert_eq!(pick_root(&component, Some(N(7))), N(7));
    assert_eq!(pick_root(&component, Some(N(3))), N(2));
    assert_eq!(pick_root(&component, None), N(2));
}

#[test]
fn options_are_read_in_any_order() {
    let args: Vec<String> =
        ["--sese", "in.dot", "--scale", "3", "out.png", "--debug"].map(String::from).to_vec();
    let numbers = vec![false, false, false, true, false, false];
    let options = parse_options(&args, &numbers).unwrap();
    assert_eq!((options.input, options.output), (1, 4));
    assert!(options.sese && options.debug && !options.straight);
    assert_eq!(options.scale, Some(3));
}

#[test]
fn options_report_what_is_wrong() {
    let outcome = |args: &[&str], numbers: &[bool]| {
        let args: Vec<String> = args.iter().map(|arg| arg.to_string()).collect();
        parse_options(&args, &numbers.to_vec()).err()
    };
    assert_eq!(outcome(&["a"], &[false]), Some(OptionsError::Usage));
    assert_eq!(outcome(&["a", "b", "-h"], &[false; 3]), Some(OptionsError::Usage));
    assert_eq!(outcome(&["a", "b", "--scale"], &[false; 3]), Some(OptionsError::Scale));
    assert_eq!(outcome(&["--scale", "x", "a", "b"], &[false; 4]), Some(OptionsError::Scale));
    assert_eq!(outcome(&["a", "--loud"], &[false; 2]), Some(OptionsError::Unknown(1)));
    assert_eq!(outcome(&["a", "b", "--straight"], &[false; 3]), None);
}

#[test]
fn identifiers_rest_on_one_usize_or_u32() {
    let named = |name: &str| Some(name.to_string());
    assert!(matches!(backing_of(&Shape::Tuple(vec![named("usize")])), Some(Backing::Usize)));
    assert!(matches!(backing_of(&Shape::Tuple(vec![named("u32")])), Some(Backing::U32)));
    assert!(backing_of(&Shape::Tuple(vec![named("u64")])).is_none());
    assert!(backing_of(&Shape::Tuple(vec![None])).is_none());
    assert!(backing_of(&Shape::Tuple(vec![named("u32"), named("u32")])).is_none());
    assert!(backing_of(&Shape::Other).is_none());
    assert_eq!(round_trip(Backing::Usize, 0x1_0000_0007), 0x1_0000_0007);
    assert_eq!(round_trip(Backing::U32, 0x1_0000_0007), 7);
    assert_eq!(round_trip(Backing::U32, 9), 9);
}

// Force-directed layout.

#[test]
fn energy_empty_graph_errors() {
    let graph = G::default();
    let error = plan_energy(&graph, None, 1_000).err();
    assert_eq!(error, Some(EnergyLayoutError::EmptyGraph));
}

#[test]
fn too_many_nodes_errors_before_simulation() {
    let mut graph = G::default();
    for _ in 0..3 {
        graph.make_node(());
    }
    let error = plan_energy(&graph, None, 2).err();
    assert_eq!(error, Some(EnergyLayoutError::TooManyNodes { count: 3, max: 2 }));
    assert_eq!(check_size(3, 3), Ok(()));
    assert_eq!(EnergyAttraction::default(), EnergyAttraction::Spring);
}

#[test]
fn self_loops_are_skipped() {
    let mut graph = G::default();
    let a = graph.make_node(());
    graph.make_edge(a, a, ());
    let plan = plan_energy(&graph, None, 1_000).unwrap_or_else(|_| panic!("one node fits"));
    assert!(plan.springs.is_empty());
    assert_eq!(plan.ids, vec![a]);
}

#[test]
fn depths_count_edges_below_the_entrypoint() {
    let mut graph = G::default();
    let n: Vec<N> = (0..5).map(|_| graph.make_node(())).collect();
    graph.make_edge(n[2], n[0], ());
    graph.make_edge(n[0], n[1], ());
    graph.make_edge(n[2], n[1], ());
    graph.make_edge(n[1], n[4], ());
    let plan = plan_energy(&graph, Some(n[2]), 5).unwrap_or_else(|_| panic!("five nodes fit"));
    assert_eq!(plan.depth, Some(vec![Some(1), Some(1), Some(0), None, Some(2)]));
    let ends: Vec<_> = plan.springs.iter().map(|s| (s.id.0, s.source, s.target)).collect();
    assert_eq!(ends, vec![(0, 2, 0), (1, 0, 1), (2, 2, 1), (3, 1, 4)]);
    assert_eq!(plan_energy(&graph, Some(N(9)), 5).unwrap_or_else(|_| panic!("fits")).depth, None);
    let springs = vec![Spring { id: 0, source: 1, target: 0 }];
    assert_eq!(depths(2, &springs, 0), vec![Some(0), None]);
}

// Text and pixels.

#[test]
fn html_is_escaped() {
    assert_eq!(escape_html("a<b> & \"c\"'d'"), "a&lt;b&gt; &amp; &quot;c&quot;&#39;d&#39;");
    assert_eq!(escape_html("&amp;"), "&amp;amp;");
    assert_eq!(escape_html("plain"), "plain");
}

const BLANK: (u8, u8, u8) = (250, 250, 250);
const INK: (u8, u8, u8) = (1, 2, 3);

fn inked(canvas: &Canvas) -> Vec<(u32, u32)> {
    let (width, height) = canvas.dimensions();
    let mut list = Vec::new();
    for y in 0..height {
        for x in 0..width {
            if canvas.get(x, y) == Some(INK) {
                list.push((x, y));
            }
        }
    }
    list
}

#[test]
fn lines_join_their_ends() {
    let mut canvas = Canvas::new(4, 3, BLANK);
    canvas.draw_line(0, 0, 3, 1, INK);
    assert_eq!(inked(&canvas), vec![(0, 0), (1, 0), (2, 1), (3, 1)]);
    let mut back = Canvas::new(4, 3, BLANK);
    back.draw_line(2, 2, 2, -5, INK);
    assert_eq!(inked(&back), vec![(2, 0), (2, 1), (2, 2)]);
    assert_eq!(canvas.get(0, 1), Some(BLANK));
    assert_eq!(canvas.get(4, 0), None);
}

#[test]
fn lines_may_start_far_outside() {
    let mut canvas = Canvas::new(3, 3, BLANK);
    canvas.draw_line(1, -200_000_000, 1, 1, INK);
    assert_eq!(inked(&canvas), vec![(1, 0), (1, 1)]);
}

#[test]
fn rectangles_are_filled_and_outlined() {
    let mut canvas = Canvas::new(4, 4, BLANK);
    canvas.fill_rect(2, 3, 1, 2, INK);
    assert_eq!(inked(&canvas), vec![(1, 2), (2, 2), (1, 3), (2, 3)]);
    let mut frame = Canvas::new(3, 3, BLANK);
    frame.draw_rect_outline(0, 0, 2, 2, INK);
    assert_eq!(inked(&frame).len(), 8);
    assert_eq!(frame.get(1, 1), Some(BLANK));
}

#[test]
fn samples_come_row_by_row() {
    let mut canvas = Canvas::new(2, 2, BLANK);
    canvas.draw_line(1, 0, 1, 0, INK);
    assert_eq!(canvas.dimensions(), (2, 2));
    assert_eq!(
        canvas.into_samples(),
        vec![250, 250, 250, 1, 2, 3, 250, 250, 250, 250, 250, 250]
    );
}

// Ranks.

#[test]
fn chain_ranks_increase_downward() {
    let layers = arranged_layers(3, &[(0, 1), (1, 2)], 0);
    assert!(layers[0] < layers[1] && layers[1] < layers[2]);
}

#[test]
fn root_sits_above_its_back_edge_predecessor() {
    let layers = arranged_layers(2, &[(0, 1), (1, 0)], 1);
    assert!(layers[1] < layers[0]);
}

#[test]
fn root_tops_loop_when_entry_has_higher_id() {
    let layers = arranged_layers(3, &[(2, 0), (0, 1), (1, 2)], 2);
    assert!(layers[2] <= layers[0] && layers[2] <= layers[1]);
}

#[test]
fn self_loops_stay_out_of_the_layered_graph() {
    let edges = numbered(&[(0, 0), (0, 1), (0, 0)]);
    let (graph, loops) =
        build_component(2, &edges, &vec![(None, None), (Some(5), None), (None, None)]);
    assert_eq!(loops, vec![(0, 0), (2, 0)]);
    assert_eq!(graph.edges().len(), 1);
    assert_eq!(graph.get_node(0).unwrap().data().self_loops, 2);
    assert_eq!(graph.get_edge(0).unwrap().data().orig, 1);
    assert_eq!(graph.get_edge(0).unwrap().data().port_start, Some(5));
    assert!(is_connected(&graph));
    assert!(is_small_enough(1_000, 5_000));
    assert!(!is_small_enough(usize::MAX, 1));
}

// Cells and ways.

#[test]
fn a_long_edge_is_one_straight_run_of_cells() {
    // The edge from 0 to 4 passes four ranks.
    let mut graph = component_graph(5, &[(0, 1), (1, 2), (2, 3), (3, 4), (0, 4)]);
    let arranged = arrange(&mut graph, 0, 8).unwrap();
    let cells = build_cells(&graph, &arranged.segments, &arranged.rows.slots);
    assert_eq!(cells.chains.len(), 1);
    let chain = &cells.chains[0];
    let ranks: Vec<usize> = chain.iter().map(|&c| cells.rank[c]).collect();
    assert_eq!(ranks, vec![1, 2, 3]);
    assert_eq!(cells.vertex[chain[1]], None);
    assert!(chain.iter().all(|&c| cells.is_dummy[c]));

    let groups = chain_groups(cells.rank.len(), &cells.chains);
    assert!(chain.iter().all(|&c| groups[c] == groups[chain[0]]));
    let marked = mark_type1(&cells);
    assert_eq!(marked.len(), cells.links.len());
    assert!(marked.iter().all(|&m| !m));
    for (down, mirror) in [(true, false), (true, true), (false, false), (false, true)] {
        let alignment = vertical_align(&cells, &marked, down, mirror);
        assert!(chain.iter().all(|&c| alignment.root[c] == alignment.root[chain[0]]));
    }
}

#[test]
fn a_link_across_a_straight_run_is_marked() {
    // The link from cell 0 to cell 3 crosses the run from 1 to 2.
    let cells = Cells {
        rank: vec![0, 0, 1, 1],
        pos: vec![0, 1, 0, 1],
        is_dummy: vec![false, true, true, false],
        vertex: vec![Some(0), Some(1), Some(2), Some(3)],
        layers: vec![vec![0, 1], vec![2, 3]],
        links: vec![
            CellLink { parent: 0, child: 3, edge: Some(0) },
            CellLink { parent: 1, child: 2, edge: None },
        ],
        chains: vec![vec![1, 2]],
    };
    assert_eq!(mark_type1(&cells), vec![true, false]);
    let alignment = vertical_align(&cells, &vec![true, false], true, false);
    assert_eq!(alignment.root, vec![0, 1, 1, 3]);
    assert_eq!(alignment.align, vec![0, 2, 1, 3]);
    assert_eq!(alignment.via, vec![None, None, Some(1), None]);
}

#[test]
fn ways_run_from_source_to_target() {
    // A chain with a long edge and a back edge.
    let pairs = [(0, 1), (1, 2), (2, 3), (0, 3), (3, 1)];
    let mut graph = component_graph(4, &pairs);
    assert!(arrange(&mut graph, 0, 8).is_some());
    let groups = collect_groups(&graph);
    let originals: Vec<usize> = groups.iter().map(|group| group.orig).collect();
    assert_eq!(originals, vec![0, 1, 2, 3, 4]);
    for group in &groups {
        let pieces = collect_pieces(&graph, &group.edges);
        let way = match trace_way(&pieces) {
            Some(way) => way,
            None => panic!("each edge has a way"),
        };
        let (from, to) = pairs[group.orig];
        assert_eq!(way.nodes.first(), Some(&from));
        assert_eq!(way.nodes.last(), Some(&to));
        let inner = &way.nodes[1..way.nodes.len() - 1];
        assert!(inner.iter().all(|&v| graph.get_node(v).unwrap().data().is_dummy));
        assert_eq!(inner.len() >= 2, group.orig >= 3);
        if group.orig < 4 {
            assert!(ordered_out_edges(&graph, from).contains(&way.first));
            assert!(ordered_in_edges(&graph, to).contains(&way.last));
        }
    }
    assert_eq!(ordered_out_edges(&graph, 0).len(), 2);
    assert_eq!(ordered_in_edges(&graph, 3).len(), 2);
    assert!(trace_way(&Vec::new()).is_none());
}

// Trees.

#[test]
fn paths_follow_the_first_of_the_largest_children() {
    // 0 has the children 1, 2 and 3; below 2 is 4, below 3 is 5.
    let parent = vec![0, 0, 0, 0, 2, 3];
    let index = build_tree_index(parent, 0, &vec![0, 1, 2, 3, 4, 5]);
    assert_eq!(index.size, vec![6, 1, 2, 2, 1, 1]);
    assert_eq!(index.head, vec![0, 1, 0, 3, 0, 3]);
    assert_eq!(index.at_pos, vec![0, 2, 4, 1, 3, 5]);
    assert_eq!(index.depth, vec![0, 1, 1, 1, 2, 2]);
}

// Channels.

#[test]
fn overlapping_jogs_get_lanes_of_their_own() {
    // The second overlaps the first, the third neither, the fourth both of the first two.
    let overlaps =
        vec![vec![], vec![true], vec![false, false], vec![true, true, false]];
    assert_eq!(assign_lanes(&overlaps), (vec![0, 1, 0, 2], 3));
    let apart = vec![vec![], vec![false], vec![false, false]];
    assert_eq!(assign_lanes(&apart), (vec![0, 0, 0], 1));
    assert_eq!(assign_lanes(&Vec::new()), (vec![], 0));
}

#[test]
fn loops_nest_by_node() {
    let loops = vec![(4, 1), (6, 0), (7, 1), (9, 1)];
    assert_eq!(nest_loops(&loops), vec![(0, 3), (0, 1), (1, 3), (2, 3)]);
}

// Regions.

#[test]
fn sese_normalization_keeps_virtual_hammock_terminals_internal() {
    let mut graph = G::default();
    let entry = graph.make_node(());
    let left = graph.make_node(());
    let right = graph.make_node(());
    graph.make_edge(entry, left, ());
    graph.make_edge(entry, right, ());
    let component = vec![entry, left, right];
    let tree = compute_sese_normalized(&graph, &component, entry);
    assert_eq!(tree.root().contained_nodes, component);
    let mut owned: Vec<_> =
        tree.regions.iter().flat_map(|region| region.nodes.iter().copied()).collect();
    owned.sort_by_key(|node| node.0);
    assert_eq!(owned, vec![entry, left, right]);
    assert!(tree.regions.iter().all(|region| {
        region.contained_nodes.iter().all(|node| [entry, left, right].contains(node))
    }));
}

fn two_exit_hammock() -> (G, Vec<N>) {
    let mut graph = G::default();
    let root = graph.make_node(());
    let a = graph.make_node(());
    let end = graph.make_node(());
    let b = graph.make_node(());
    let c = graph.make_node(());
    let d = graph.make_node(());
    let e = graph.make_node(());
    let f = graph.make_node(());
    graph.make_edge(root, a, ());
    graph.make_edge(a, end, ());
    graph.make_edge(root, b, ());
    graph.make_edge(b, c, ());
    graph.make_edge(c, d, ());
    graph.make_edge(d, end, ());
    graph.make_edge(b, e, ());
    graph.make_edge(e, f, ());
    graph.make_edge(f, end, ());
    (graph, vec![root, a, end, b, c, d, e, f])
}

#[test]
fn hammock_fallback_groups_multiple_exit_edges_to_one_exit_node() {
    let (graph, component) = two_exit_hammock();
    let [root, _, _, b, c, d, e, f] =
        [0, 1, 2, 3, 4, 5, 6, 7].map(|i: usize| component[i]);
    let entry = E(2);
    let first_exit = E(5);
    let tree = compute_layout_sese_tree(&graph, &component, root);
    assert_eq!(tree.regions.len(), 4, "root, hammock, and two edge-SESE children");
    let hammock = tree
        .regions
        .iter()
        .find(|region| region.contained_nodes == vec![b, c, d, e, f])
        .expect("b..f hammock");
    assert_eq!(hammock.entry_edge, Some(entry));
    assert_eq!(hammock.exit_edge, Some(first_exit));
    let hammock_id = tree
        .regions
        .iter()
        .position(|region| region.contained_nodes == vec![b, c, d, e, f])
        .unwrap();
    for nodes in [[c, d], [e, f]] {
        let child = tree
            .regions
            .iter()
            .find(|region| region.contained_nodes == nodes)
            .expect("nested edge-SESE");
        assert_eq!(child.parent, Some(hammock_id));
    }
    // The raw candidates hold both chains, with their edges.
    let candidates = compute_sese_candidates_normalized(&graph, &component, root);
    assert!(candidates.iter().any(|cut| cut.contained_nodes == vec![c, d]));
    assert!(candidates.iter().any(|cut| cut.contained_nodes == vec![e, f]));
}

#[test]
fn several_exits_to_one_node_make_one_hammock() {
    let (graph, component) = two_exit_hammock();
    let hammocks = compute_hammocks(&graph, &component, component[0]);
    assert_eq!(hammocks.len(), 1);
    assert_eq!(hammocks[0].nodes, component[3..].to_vec());
    assert_eq!(hammocks[0].entry_edge, E(2));
    assert_eq!(hammocks[0].exit_edge, E(5));
}

#[test]
fn regions_follow_the_order_of_the_component() {
    let (graph, component) = two_exit_hammock();
    let root = component[0];
    let reversed: Vec<N> = component.iter().rev().copied().collect();
    let canonical = compute_sese_normalized(&graph, &reversed, root);
    assert_eq!(canonical.root().contained_nodes, reversed);
    let candidates = compute_sese_candidates_normalized(&graph, &reversed, root);
    assert!(candidates.iter().any(|cut| cut.contained_nodes == vec![component[5], component[4]]));
    let tree = compute_layout_sese_tree(&graph, &reversed, root);
    assert_eq!(tree.root().contained_nodes, reversed);
    assert_eq!(tree.regions.len(), 4);
    // A hammock lists its nodes in the order of their indices.
    assert_eq!(tree.regions[1].contained_nodes, component[3..].to_vec());
    assert_eq!(tree.regions[2].contained_nodes, vec![component[5], component[4]]);
}

#[test]
fn a_closed_component_is_left_at_its_last_node() {
    // A cycle of three nodes: the sink hangs on the node that is listed last.
    let mut graph = G::default();
    let n: Vec<N> = (0..3).map(|_| graph.make_node(())).collect();
    graph.make_edge(n[0], n[1], ());
    graph.make_edge(n[1], n[2], ());
    graph.make_edge(n[2], n[0], ());
    let sets = |component: &Vec<N>| {
        let found = compute_sese_candidates_normalized(&graph, component, n[0]);
        found.iter().map(|cut| cut.contained_nodes.clone()).collect::<Vec<_>>()
    };
    assert_eq!(sets(&vec![n[0], n[1], n[2]]), vec![vec![n[1]]]);
    assert_eq!(sets(&vec![n[0], n[2], n[1]]), vec![vec![n[2]]]);
}

#[test]
fn a_quotient_has_proxies_and_named_ports() {
    let pairs = [(0, 1), (1, 2), (0, 3), (3, 4), (4, 5), (5, 2), (3, 6), (6, 7), (7, 2)];
    let edges = numbered(&pairs);
    let tree = layout_regions(8, 0, &edges);
    assert_eq!(tree.sets.len(), 4);
    assert!(has_useful_region(&tree, 8));
    assert!(!has_useful_region(&tree, 9));

    // The hammock 3..7 owns 3, and its two children are the chains.
    let hammock = tree.sets.iter().position(|set| set.len() == 5).unwrap();
    assert_eq!(tree.owned[hammock], vec![3]);
    let q = match inspect_region(8, &edges, &tree, hammock, 0) {
        Some(q) => q,
        None => panic!("the hammock is covered"),
    };
    assert_eq!(q.direct, vec![3]);
    assert_eq!(q.proxies, tree.children[hammock]);
    assert_eq!(q.exits, vec![5, 7]);
    assert!(q.has_entry);
    assert_eq!(q.count, 1 + 2 + 1 + 2);
    assert_eq!(q.root, 0);
    // The entry leads to node 3, the exits leave the proxies by their own ports.
    assert_eq!((q.links[0].from, q.links[0].to, q.links[0].end), (3, 0, None));
    let child = |v: usize| q.proxies.iter().copied().find(|&p| tree.sets[p].contains(&v)).unwrap();
    assert_eq!(q.links[1].start, Some((child(5), RegionPortId::Exit { source: 5 })));
    assert_eq!(q.links[2].start, Some((child(7), RegionPortId::Exit { source: 7 })));
    let inner: Vec<_> = q.links[3..].iter().map(|link| (link.original, link.end)).collect();
    assert_eq!(
        inner,
        vec![
            (Some(3), Some((child(4), RegionPortId::Entry))),
            (Some(6), Some((child(6), RegionPortId::Entry))),
        ]
    );
    let graph = quotient_graph(&q);
    assert_eq!(graph.nodes().len(), 6);
    assert_eq!(graph.edges().len(), 5);

    let outer = match inspect_region(8, &edges, &tree, 0, 0) {
        Some(q) => q,
        None => panic!("the root is covered"),
    };
    assert!(!outer.has_entry && outer.exits.is_empty());
    assert_eq!(outer.direct, vec![0, 1, 2]);
}

#[test]
fn a_plain_chain_has_no_useful_region() {
    let edges = numbered(&[(0, 1), (1, 2)]);
    let tree = layout_regions(3, 0, &edges);
    assert_eq!(tree.sets[0], vec![0, 1, 2]);
    assert!(!has_useful_region(&tree, 3));
}
