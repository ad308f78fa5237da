//! The cells that get horizontal positions.
//!
//! The ordering pass produced, per rank, the left-to-right sequence of slots (vertices and
//! segment lanes). Each slot becomes a transient *cell*; the lanes of a segment are linked
//! vertically into one straight run between its p- and q-vertex.
use crate::fx;
use crate::graph::edge::Edge;
use crate::graph::Graph;
use crate::triskel::alignment::is_cell_grid;
use crate::triskel::alignment_laws::links_step_down;
use crate::triskel::cells_laws::law_links_step_down;
use crate::triskel::lanes::Slot;
use crate::triskel::layout_graph::{layer_of, relatives, state_of, LayoutGraph, LayoutState};
use crate::triskel::order::slot_rows;
use crate::triskel::segment::{layer_in, ranks_bounded, SegmentInfo, Segmented};
use vstd::prelude::*;

verus! {

/// A link between cells of neighbouring ranks. The links of a straight run stand for no
/// edge of their own.
#[derive(Clone, Copy, Debug, PartialEq, Eq)]
pub struct CellLink {
    pub parent: usize,
    pub child: usize,
    pub edge: Option<usize>,
}

/// Cells by number, with the links between them in a fixed order.
pub struct Cells {
    pub rank: Vec<usize>,
    pub pos: Vec<usize>,
    pub is_dummy: Vec<bool>,
    /// The vertex of a cell; a lane has none.
    pub vertex: Vec<Option<usize>>,
    pub layers: Vec<Vec<usize>>,
    pub links: Vec<CellLink>,
    /// Complete p, lanes, q chains. These are coordinate constraints, not optional
    /// alignment candidates.
    pub chains: Vec<Vec<usize>>,
}

/// How many cells there are in the first `r` rows.
pub open spec fn offset(slots: Seq<Seq<Slot>>, r: int) -> nat
    decreases r,
{
    if r <= 0 {
        0
    } else {
        offset(slots, r - 1) + slots[r - 1].len()
    }
}

/// The vertex in a slot.
pub open spec fn vertex_in(slot: Slot) -> Option<usize> {
    match slot {
        Slot::Vertex(id) => Some(id),
        Slot::Segment(_) => None,
    }
}

/// Lanes, and vertices that are dummies.
pub open spec fn is_dummy_slot(state: LayoutState, slot: Slot) -> bool {
    match slot {
        Slot::Vertex(id) => state.nodes[id].data.is_dummy,
        Slot::Segment(_) => true,
    }
}

/// The cell of a slot.
pub open spec fn cell_of(slots: Seq<Seq<Slot>>, r: int, slot: Slot) -> int {
    offset(slots, r) + slots[r].index_of(slot)
}

/// The cell of a vertex, in the row of its layer.
pub open spec fn vertex_cell(s: Segmented, slots: Seq<Seq<Slot>>, v: usize) -> int {
    cell_of(slots, layer_in(s.state, v), Slot::Vertex(v))
}

/// The vertex where the segment of `q` starts.
pub open spec fn start_of(s: Segmented, q: usize) -> usize {
    s.state.parents(q)[0]
}

/// The segment of `q` starts at a vertex further up and has a lane in each row between.
pub open spec fn has_lanes(s: Segmented, slots: Seq<Seq<Slot>>, q: usize) -> bool {
    let p = start_of(s, q);
    &&& s.state.nodes.contains_key(q)
    &&& s.state.parents(q).len() > 0
    &&& s.state.nodes.contains_key(p)
    &&& layer_in(s.state, p) < layer_in(s.state, q)
    &&& forall|r: int|
        layer_in(s.state, p) < r < layer_in(s.state, q) ==> (#[trigger] slots[r]).contains(
            Slot::Segment(q),
        )
}

/// The slots hold each vertex in the row of its layer, and each segment in all rows
/// between its ends; nothing stands twice in a row.
pub open spec fn is_slotting(s: Segmented, slots: Seq<Seq<Slot>>) -> bool {
    &&& forall|r: int| 0 <= r < slots.len() ==> (#[trigger] slots[r]).no_duplicates()
    &&& forall|v: usize| #[trigger]
        s.state.nodes.contains_key(v) ==> layer_in(s.state, v) < slots.len() && slots[layer_in(
            s.state,
            v,
        )].contains(Slot::Vertex(v))
    &&& forall|r: int, i: int|
        0 <= r < slots.len() && 0 <= i < slots[r].len() ==> match #[trigger] slots[r][i] {
            Slot::Vertex(v) => s.state.nodes.contains_key(v),
            Slot::Segment(_) => true,
        }
    &&& forall|q: usize| #[trigger] s.qvertices.contains(q) ==> has_lanes(s, slots, q)
}

/// The cells of the slots, row by row.
pub open spec fn is_grid(
    state: LayoutState,
    slots: Seq<Seq<Slot>>,
    rank: Seq<usize>,
    pos: Seq<usize>,
    is_dummy: Seq<bool>,
    vertex: Seq<Option<usize>>,
    layers: Seq<Vec<usize>>,
    rows: int,
    last: int,
) -> bool {
    &&& rank.len() == pos.len()
    &&& is_dummy.len() == pos.len()
    &&& vertex.len() == pos.len()
    &&& layers.len() == slots.len()
    &&& forall|r: int, i: int|
        0 <= r < slots.len() && 0 <= i < slots[r].len() && (r < rows || r == rows && i < last) ==> {
            let c = offset(slots, r) + i;
            let slot = #[trigger] slots[r][i];
            &&& c < pos.len()
            &&& rank[c] == r
            &&& pos[c] == i
            &&& is_dummy[c] == is_dummy_slot(state, slot)
            &&& vertex[c] == vertex_in(slot)
            &&& i < layers[r]@.len()
            &&& layers[r]@[i] == c
        }
    &&& forall|r: int|
        0 <= r < slots.len() ==> (#[trigger] layers[r])@.len() == if r < rows {
            slots[r].len() as int
        } else if r == rows {
            last
        } else {
            0
        }
}

/// Links over the edges between neighbouring ranks, but for the segments: those of the
/// first `k` edges of a list.
pub open spec fn edge_links(
    s: Segmented,
    slots: Seq<Seq<Slot>>,
    ids: Seq<usize>,
    k: int,
) -> Seq<CellLink>
    decreases k,
{
    if k <= 0 {
        Seq::empty()
    } else {
        let before = edge_links(s, slots, ids, k - 1);
        let e = ids[k - 1];
        let (from, to) = (s.state.edges[e].from, s.state.edges[e].to);
        if !(s.pvertices.contains(from) && s.qvertices.contains(to)) && layer_in(s.state, to)
            == layer_in(s.state, from) + 1 {
            before.push(
                CellLink {
                    parent: vertex_cell(s, slots, from) as usize,
                    child: vertex_cell(s, slots, to) as usize,
                    edge: Some(e),
                },
            )
        } else {
            before
        }
    }
}

/// The cell of the segment of `q` in row `r`: that of its start, of a lane, or of its end.
pub open spec fn chain_cell(s: Segmented, slots: Seq<Seq<Slot>>, q: usize, r: int) -> int {
    if r == layer_in(s.state, start_of(s, q)) {
        vertex_cell(s, slots, start_of(s, q))
    } else if r == layer_in(s.state, q) {
        vertex_cell(s, slots, q)
    } else {
        cell_of(slots, r, Slot::Segment(q))
    }
}

/// The straight run of the segment of `q`.
pub open spec fn chain_of(s: Segmented, slots: Seq<Seq<Slot>>, q: usize) -> Seq<usize> {
    let top = layer_in(s.state, start_of(s, q));
    Seq::new(
        (layer_in(s.state, q) - top + 1) as nat,
        |i: int| chain_cell(s, slots, q, top + i) as usize,
    )
}

/// The links along a chain.
pub open spec fn chain_links(chain: Seq<usize>) -> Seq<CellLink> {
    Seq::new(
        (chain.len() - 1) as nat,
        |i: int| CellLink { parent: chain[i], child: chain[i + 1], edge: None },
    )
}

/// The vertices of a list where segments end.
pub open spec fn ends_in(s: Segmented, ids: Seq<usize>, k: int) -> Seq<usize>
    decreases k,
{
    if k <= 0 {
        Seq::empty()
    } else {
        let before = ends_in(s, ids, k - 1);
        if s.qvertices.contains(ids[k - 1]) {
            before.push(ids[k - 1])
        } else {
            before
        }
    }
}

/// The links along the first `k` of the segments that end at the listed vertices.
pub open spec fn run_links(s: Segmented, slots: Seq<Seq<Slot>>, ends: Seq<usize>, k: int) -> Seq<
    CellLink,
>
    decreases k,
{
    if k <= 0 {
        Seq::empty()
    } else {
        run_links(s, slots, ends, k - 1) + chain_links(chain_of(s, slots, ends[k - 1]))
    }
}

/// The cells of a layout with its slots: one per slot, the links over edges and then those
/// along segments, and the chains of the segments.
pub open spec fn are_cells(s: Segmented, slots: Seq<Seq<Slot>>, nodes: Seq<usize>, edges: Seq<usize>, cells: Cells) -> bool {
    let ends = ends_in(s, nodes, nodes.len() as int);
    &&& is_grid(
        s.state,
        slots,
        cells.rank@,
        cells.pos@,
        cells.is_dummy@,
        cells.vertex@,
        cells.layers@,
        slots.len() as int,
        0,
    )
    &&& cells.pos@.len() == offset(slots, slots.len() as int)
    &&& cells.links@ == edge_links(s, slots, edges, edges.len() as int) + run_links(
        s,
        slots,
        ends,
        ends.len() as int,
    )
    &&& cells.chains@.len() == ends.len()
    &&& forall|i: int|
        0 <= i < ends.len() ==> (#[trigger] cells.chains@[i])@ == chain_of(s, slots, ends[i])
}

proof fn lemma_offset(slots: Seq<Seq<Slot>>, r: int, t: int)
    requires
        0 <= r < t <= slots.len(),
    ensures
        offset(slots, r) + slots[r].len() <= offset(slots, t),
    decreases t,
{
    if r < t - 1 {
        lemma_offset(slots, r, t - 1);
    }
}

/// Places the slots.
#[verifier::rlimit(40)]
fn place_cells(graph: &LayoutGraph, slots: &Vec<Vec<Slot>>, Ghost(s): Ghost<Segmented>) -> (cells: Cells)
    requires
        graph.wf(),
        s.state == state_of(graph),
        is_slotting(s, slot_rows(slots@)),
    ensures
        is_grid(
            s.state,
            slot_rows(slots@),
            cells.rank@,
            cells.pos@,
            cells.is_dummy@,
            cells.vertex@,
            cells.layers@,
            slots@.len() as int,
            0,
        ),
        cells.pos@.len() == offset(slot_rows(slots@), slots@.len() as int),
        cells.links@.len() == 0,
        cells.chains@.len() == 0,
{
    let ghost all = slot_rows(slots@);
    let mut rank: Vec<usize> = Vec::new();
    let mut pos: Vec<usize> = Vec::new();
    let mut is_dummy: Vec<bool> = Vec::new();
    let mut vertex: Vec<Option<usize>> = Vec::new();
    let mut layers: Vec<Vec<usize>> = Vec::new();
    for r in 0..slots.len()
        invariant
            layers@.len() == r,
            forall|k: int| 0 <= k < r ==> (#[trigger] layers@[k])@.len() == 0,
    {
        layers.push(Vec::new());
    }
    for r in 0..slots.len()
        invariant
            graph.wf(),
            s.state == state_of(graph),
            all == slot_rows(slots@),
            is_slotting(s, all),
            pos@.len() == offset(all, r as int),
            is_grid(s.state, all, rank@, pos@, is_dummy@, vertex@, layers@, r as int, 0),
    {
        let row = &slots[r];
        assert(all[r as int] == row@);
        for i in 0..row.len()
            invariant
                graph.wf(),
                s.state == state_of(graph),
                r < all.len(),
                all[r as int] == row@,
                is_slotting(s, all),
                pos@.len() == offset(all, r as int) + i,
                is_grid(s.state, all, rank@, pos@, is_dummy@, vertex@, layers@, r as int, i as int),
        {
            let cid: usize = rank.len();
            let ghost layers0 = layers@;
            assert(all[r as int][i as int] == row@[i as int]);
            let dummy = match row[i] {
                Slot::Vertex(id) => graph.get_node(id).unwrap().data().is_dummy,
                Slot::Segment(_) => true,
            };
            vertex.push(
                match row[i] {
                    Slot::Vertex(id) => Some(id),
                    Slot::Segment(_) => None,
                },
            );
            rank.push(r);
            pos.push(i);
            is_dummy.push(dummy);
            layers[r].push(cid);
            proof {
                assert forall|q: int, j: int|
                    0 <= q < all.len() && 0 <= j < all[q].len() && (q < r || q == r && j < i
                        + 1) implies {
                    let c = offset(all, q) + j;
                    let slot = #[trigger] all[q][j];
                    &&& c < pos@.len()
                    &&& rank@[c] == q
                    &&& pos@[c] == j
                    &&& is_dummy@[c] == is_dummy_slot(s.state, slot)
                    &&& vertex@[c] == vertex_in(slot)
                    &&& j < layers@[q]@.len()
                    &&& layers@[q]@[j] == c
                } by {
                    if q < r {
                        lemma_offset(all, q, r as int);
                        assert(layers@[q] == layers0[q]);
                    }
                }
            }
        }
        proof {
            assert forall|q: int| 0 <= q < all.len() implies (#[trigger] layers@[q])@.len() == if q
                < r + 1 {
                all[q].len() as int
            } else if q == r + 1 {
                0
            } else {
                0
            } by {}
        }
    }
    Cells { rank, pos, is_dummy, vertex, layers, links: Vec::new(), chains: Vec::new() }
}

/// The cell of a slot of a row.
fn find_cell(row: &Vec<Slot>, first: usize, slot: Slot) -> (c: usize)
    requires
        row@.contains(slot),
        row@.no_duplicates(),
        first + row@.len() <= usize::MAX,
    ensures
        c == first + row@.index_of(slot),
{
    for i in 0..row.len()
        invariant
            row@.contains(slot),
            row@.no_duplicates(),
            first + row@.len() <= usize::MAX,
            forall|k: int| 0 <= k < i ==> #[trigger] row@[k] != slot,
    {
        if row[i] == slot {
            assert(row@.index_of(slot) == i);
            return first + i;
        }
    }
    proof {
        let k = row@.index_of(slot);
        assert(row@[k] != slot);
    }
    0
}

/// Where each row starts.
fn row_starts(slots: &Vec<Vec<Slot>>, total: usize) -> (starts: Vec<usize>)
    requires
        total == offset(slot_rows(slots@), slots@.len() as int),
    ensures
        starts@.len() == slots@.len(),
        forall|r: int|
            0 <= r < slots@.len() ==> #[trigger] starts@[r] == offset(slot_rows(slots@), r)
                && starts@[r] + slots@[r]@.len() <= total,
{
    let ghost all = slot_rows(slots@);
    let mut starts: Vec<usize> = Vec::new();
    let mut sum: usize = 0;
    for r in 0..slots.len()
        invariant
            all == slot_rows(slots@),
            total == offset(all, slots@.len() as int),
            sum == offset(all, r as int),
            starts@.len() == r,
            forall|k: int|
                0 <= k < r ==> #[trigger] starts@[k] == offset(all, k) && starts@[k]
                    + slots@[k]@.len() <= total,
    {
        proof {
            lemma_offset(all, r as int, slots@.len() as int);
            assert(all[r as int] == slots@[r as int]@);
        }
        starts.push(sum);
        sum = sum + slots[r].len();
    }
    starts
}

/// The cell of a vertex.
fn find_vertex(graph: &LayoutGraph, slots: &Vec<Vec<Slot>>, starts: &Vec<usize>, v: usize, Ghost(s): Ghost<Segmented>, Ghost(total): Ghost<int>) -> (c: usize)
    requires
        graph.wf(),
        s.state == state_of(graph),
        ranks_bounded(s.state),
        is_slotting(s, slot_rows(slots@)),
        s.state.nodes.contains_key(v),
        starts@.len() == slots@.len(),
        total <= usize::MAX,
        forall|r: int|
            0 <= r < slots@.len() ==> #[trigger] starts@[r] == offset(slot_rows(slots@), r)
                && starts@[r] + slots@[r]@.len() <= total,
    ensures
        c == vertex_cell(s, slot_rows(slots@), v),
        c < total,
{
    let r: usize = layer_of(graph, v);
    proof {
        assert(slot_rows(slots@)[r as int] == slots@[r as int]@);
        assert(starts@[r as int] == offset(slot_rows(slots@), r as int));
        assert(slot_rows(slots@)[r as int].no_duplicates());
        let k = slots@[r as int]@.index_of(Slot::Vertex(v));
    }
    find_cell(&slots[r], starts[r], Slot::Vertex(v))
}

/// Materialises the per-rank slot sequences into a transient cell graph: one cell per
/// slot, segment lanes linked vertically into straight runs, real adjacencies linked rank
/// to rank.
#[verifier::rlimit(40)]
pub fn build_cells(graph: &LayoutGraph, seg: &SegmentInfo, slots: &Vec<Vec<Slot>>) -> (cells: Cells)
    requires
        graph.wf(),
        state_of(graph).is_sound(),
        ranks_bounded(state_of(graph)),
        is_slotting(
            Segmented {
                state: state_of(graph),
                pvertices: seg.pvertices@,
                qvertices: seg.qvertices@,
            },
            slot_rows(slots@),
        ),
    ensures
        are_cells(
            Segmented {
                state: state_of(graph),
                pvertices: seg.pvertices@,
                qvertices: seg.qvertices@,
            },
            slot_rows(slots@),
            graph.spec_nodes(),
            graph.spec_edges(),
            cells,
        ),
        links_are_cells(cells),
        is_cell_grid(cells),
        links_step_down(cells),
{
    let ghost s = Segmented {
        state: state_of(graph),
        pvertices: seg.pvertices@,
        qvertices: seg.qvertices@,
    };
    let ghost all = slot_rows(slots@);
    let mut cells = place_cells(graph, slots, Ghost(s));
    let total: usize = cells.pos.len();
    let starts = row_starts(slots, total);
    let list = graph.edge_ids();
    let ids = graph.node_ids();
    proof {
        graph.lemma_members();
    }
    let mut links: Vec<CellLink> = Vec::new();
    // Adjacent-rank edges, skipping the spanning segments.
    for k in 0..list.len()
        invariant
            graph.wf(),
            s.state == state_of(graph),
            s.state.is_sound(),
            s.pvertices == seg.pvertices@,
            s.qvertices == seg.qvertices@,
            ranks_bounded(s.state),
            all == slot_rows(slots@),
            is_slotting(s, all),
            list@ == graph.spec_edges(),
            starts@.len() == slots@.len(),
            forall|r: int|
                0 <= r < slots@.len() ==> #[trigger] starts@[r] == offset(all, r) && starts@[r]
                    + slots@[r]@.len() <= total,
            links@ == edge_links(s, all, list@, k as int),
            are_within(links@, total as int),
    {
        let e: usize = list[k];
        proof {
            graph.lemma_members();
            assert(graph.spec_edges().contains(e));
            assert(s.state.edges.contains_key(e));
        }
        let from: usize = graph.get_edge(e).unwrap().from_id();
        let to: usize = graph.get_edge(e).unwrap().to_id();
        let spans = fx::set_contains(&seg.pvertices, from) && fx::set_contains(&seg.qvertices, to);
        if !spans && layer_of(graph, to) == layer_of(graph, from) + 1 {
            let parent: usize = find_vertex(
                graph,
                slots,
                &starts,
                from,
                Ghost(s),
                Ghost(total as int),
            );
            let child: usize = find_vertex(graph, slots, &starts, to, Ghost(s), Ghost(total as int));
            links.push(CellLink { parent, child, edge: Some(e) });
        }
    }
    // Each segment's straight run from p over its lanes to q.
    let mut chains: Vec<Vec<usize>> = Vec::new();
    let ghost outer = links@;
    let ghost ends = ends_in(s, ids@, ids@.len() as int);
    assert(outer + run_links(s, all, ends, 0) =~= outer);
    for k in 0..ids.len()
        invariant
            graph.wf(),
            s.state == state_of(graph),
            s.state.is_sound(),
            s.pvertices == seg.pvertices@,
            s.qvertices == seg.qvertices@,
            ranks_bounded(s.state),
            all == slot_rows(slots@),
            is_slotting(s, all),
            ids@ == graph.spec_nodes(),
            starts@.len() == slots@.len(),
            forall|r: int|
                0 <= r < slots@.len() ==> #[trigger] starts@[r] == offset(all, r) && starts@[r]
                    + slots@[r]@.len() <= total,
            are_within(links@, total as int),
            chains@.len() == ends_in(s, ids@, k as int).len(),
            links@ == outer + run_links(
                s,
                all,
                ends_in(s, ids@, k as int),
                chains@.len() as int,
            ),
            forall|i: int|
                0 <= i < chains@.len() ==> (#[trigger] chains@[i])@ == chain_of(
                    s,
                    all,
                    ends_in(s, ids@, k as int)[i],
                ),
            forall|i: int, j: int|
                0 <= i < chains@.len() && 0 <= j < chains@[i]@.len() ==> #[trigger] chains@[i]@[j]
                    < total,
    {
        let q: usize = ids[k];
        if fx::set_contains(&seg.qvertices, q) {
            let ghost found = ends_in(s, ids@, k as int);
            let ghost more = ends_in(s, ids@, k + 1);
            let chain = build_chain(graph, slots, &starts, q, Ghost(s), Ghost(total as int));
            let ghost before = links@;
            for i in 1..chain.len()
                invariant
                    chain@.len() >= 1,
                    forall|j: int| 0 <= j < chain@.len() ==> #[trigger] chain@[j] < total,
                    are_within(links@, total as int),
                    links@ == before + chain_links(chain@).take(i - 1),
            {
                assert(chain@[i - 1] < total && chain@[i as int] < total);
                links.push(CellLink { parent: chain[i - 1], child: chain[i], edge: None });
                assert(links@ =~= before + chain_links(chain@).take(i as int));
            }
            proof {
                assert(chain_links(chain@).take(chain@.len() - 1) =~= chain_links(chain@));
                assert(more == found.push(q));
                lemma_run_links(s, all, found, more, found.len() as int);
                assert(links@ =~= outer + run_links(s, all, more, more.len() as int));
            }
            let ghost chains0 = chains@;
            chains.push(chain);
            proof {
                assert forall|i: int| 0 <= i < chains@.len() implies (#[trigger] chains@[i])@
                    == chain_of(s, all, more[i]) by {
                    if i < chains0.len() {
                        assert(chains@[i] == chains0[i]);
                    }
                }
                assert forall|i: int, j: int|
                    0 <= i < chains@.len() && 0 <= j < chains@[i]@.len() implies #[trigger] chains@[i]@[j]
                    < total by {
                    if i < chains0.len() {
                        assert(chains0[i]@[j] < total);
                    } else {
                        assert(chain@[j] < total);
                    }
                }
            }
        }
    }
    cells.links = links;
    cells.chains = chains;
    proof {
        lemma_cell_grid(s.state, all, cells);
        assert forall|k: int| 0 <= k < list@.len() implies s.state.edges.contains_key(
            #[trigger] list@[k],
        ) by {
            graph.lemma_members();
            assert(graph.spec_edges().contains(list@[k]));
        }
        law_links_step_down(s, all, ids@, list@, cells);
    }
    cells
}

/// The row of a cell number.
proof fn lemma_row_of_cell(slots: Seq<Seq<Slot>>, t: int, c: int) -> (r: int)
    requires
        0 <= t <= slots.len(),
        0 <= c < offset(slots, t),
    ensures
        0 <= r < t,
        offset(slots, r) <= c < offset(slots, r) + slots[r].len(),
    decreases t,
{
    if c >= offset(slots, t - 1) {
        t - 1
    } else {
        lemma_row_of_cell(slots, t - 1, c)
    }
}

proof fn lemma_cell_grid(state: LayoutState, slots: Seq<Seq<Slot>>, cells: Cells)
    requires
        is_grid(
            state,
            slots,
            cells.rank@,
            cells.pos@,
            cells.is_dummy@,
            cells.vertex@,
            cells.layers@,
            slots.len() as int,
            0,
        ),
        cells.pos@.len() == offset(slots, slots.len() as int),
        links_are_cells(cells),
    ensures
        is_cell_grid(cells),
{
    assert forall|c: int| 0 <= c < cells.pos@.len() implies (#[trigger] cells.rank@[c])
        < cells.layers@.len() && cells.pos@[c] < cells.layers@[cells.rank@[c] as int]@.len()
        && cells.layers@[cells.rank@[c] as int]@[cells.pos@[c] as int] == c by {
        let r = lemma_row_of_cell(slots, slots.len() as int, c);
        let i = c - offset(slots, r);
        let slot = slots[r][i];
    }
    assert forall|r: int, i: int|
        0 <= r < cells.layers@.len() && 0 <= i < cells.layers@[r]@.len() implies {
        let c = #[trigger] cells.layers@[r]@[i];
        &&& c < cells.pos@.len()
        &&& cells.rank@[c as int] == r
        &&& cells.pos@[c as int] == i
    } by {
        let slot = slots[r][i];
    }
}

/// Links lead between the first `total` cells.
pub open spec fn are_within(links: Seq<CellLink>, total: int) -> bool {
    forall|i: int|
        #![trigger links[i]]
        0 <= i < links.len() ==> links[i].parent < total && links[i].child < total
}

/// Links and chains hold cells.
pub open spec fn links_are_cells(cells: Cells) -> bool {
    &&& are_within(cells.links@, cells.pos@.len() as int)
    &&& forall|i: int, j: int|
        0 <= i < cells.chains@.len() && 0 <= j < cells.chains@[i]@.len()
            ==> #[trigger] cells.chains@[i]@[j] < cells.pos@.len()
}

proof fn lemma_run_links(
    s: Segmented,
    slots: Seq<Seq<Slot>>,
    a: Seq<usize>,
    b: Seq<usize>,
    k: int,
)
    requires
        0 <= k <= a.len(),
        k <= b.len(),
        forall|i: int| 0 <= i < k ==> #[trigger] a[i] == b[i],
    ensures
        run_links(s, slots, a, k) == run_links(s, slots, b, k),
    decreases k,
{
    if k > 0 {
        lemma_run_links(s, slots, a, b, k - 1);
        assert(a[k - 1] == b[k - 1]);
    }
}

/// The straight run of a segment.
fn build_chain(graph: &LayoutGraph, slots: &Vec<Vec<Slot>>, starts: &Vec<usize>, q: usize, Ghost(s): Ghost<Segmented>, Ghost(total): Ghost<int>) -> (chain: Vec<usize>)
    requires
        graph.wf(),
        s.state == state_of(graph),
        s.state.is_sound(),
        ranks_bounded(s.state),
        is_slotting(s, slot_rows(slots@)),
        s.qvertices.contains(q),
        starts@.len() == slots@.len(),
        total <= usize::MAX,
        forall|r: int|
            0 <= r < slots@.len() ==> #[trigger] starts@[r] == offset(slot_rows(slots@), r)
                && starts@[r] + slots@[r]@.len() <= total,
    ensures
        chain@ == chain_of(s, slot_rows(slots@), q),
        chain@.len() >= 2,
        forall|j: int| 0 <= j < chain@.len() ==> #[trigger] chain@[j] < total,
{
    let ghost all = slot_rows(slots@);
    assert(has_lanes(s, all, q));
    let (_, up) = relatives(graph, q);
    let p: usize = up[0];
    let top: usize = layer_of(graph, p);
    let bottom: usize = layer_of(graph, q);
    let mut chain: Vec<usize> = Vec::new();
    chain.push(find_vertex(graph, slots, starts, p, Ghost(s), Ghost(total)));
    let ghost goal = chain_of(s, all, q);
    assert(chain@ =~= goal.take(1));
    for r in top + 1..bottom
        invariant
            all == slot_rows(slots@),
            is_slotting(s, all),
            has_lanes(s, all, q),
            p == start_of(s, q),
            top == layer_in(s.state, p),
            bottom == layer_in(s.state, q),
            s.state.nodes.contains_key(q),
            goal == chain_of(s, all, q),
            starts@.len() == slots@.len(),
            total <= usize::MAX,
            forall|r: int|
                0 <= r < slots@.len() ==> #[trigger] starts@[r] == offset(all, r) && starts@[r]
                    + slots@[r]@.len() <= total,
            top < r,
            chain@ == goal.take(r - top),
            forall|j: int| 0 <= j < chain@.len() ==> #[trigger] chain@[j] < total,
    {
        proof {
            assert(bottom < slots@.len());
            assert(all[r as int] == slots@[r as int]@);
            assert(all[r as int].no_duplicates());
            assert(starts@[r as int] == offset(all, r as int));
            assert(slots@[r as int]@.contains(Slot::Segment(q)));
        }
        let c: usize = find_cell(&slots[r], starts[r], Slot::Segment(q));
        chain.push(c);
        assert(chain@ =~= goal.take(r - top + 1));
    }
    chain.push(find_vertex(graph, slots, starts, q, Ghost(s), Ghost(total)));
    assert(chain@ =~= goal);
    chain
}

} // verus!
