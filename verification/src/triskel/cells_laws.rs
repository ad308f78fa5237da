//! What holds of the cells of a layout.
use crate::graph::owning::is_linked;
use crate::triskel::alignment::is_cell_grid;
use crate::triskel::alignment_laws::links_step_down;
use crate::triskel::cells::{
    are_cells, cell_of, chain_cell, chain_links, chain_of, edge_links, ends_in, has_lanes,
    is_slotting, run_links, start_of, vertex_cell, vertex_in, CellLink, Cells,
};
use crate::triskel::lanes::Slot;
use crate::triskel::segment::{layer_in, Segmented};
use vstd::prelude::*;

verus! {

/// The cells of a layout, over its edges.
pub open spec fn is_cell_plan(
    s: Segmented,
    slots: Seq<Seq<Slot>>,
    nodes: Seq<usize>,
    edges: Seq<usize>,
    cells: Cells,
) -> bool {
    &&& is_linked(s.state.nodes, s.state.edges)
    &&& is_slotting(s, slots)
    &&& are_cells(s, slots, nodes, edges, cells)
    &&& is_cell_grid(cells)
    &&& forall|k: int| 0 <= k < edges.len() ==> s.state.edges.contains_key(#[trigger] edges[k])
}

/// The cell stands for the slot.
pub open spec fn is_cell_of(slots: Seq<Seq<Slot>>, cells: Cells, c: int, r: int, slot: Slot) -> bool {
    &&& 0 <= c < cells.pos@.len()
    &&& cells.rank@[c] == r
    &&& cells.pos@[c] < slots[r].len()
    &&& slots[r][cells.pos@[c] as int] == slot
    &&& cells.vertex@[c] == vertex_in(slot)
}

proof fn lemma_cell(
    s: Segmented,
    slots: Seq<Seq<Slot>>,
    nodes: Seq<usize>,
    edges: Seq<usize>,
    cells: Cells,
    r: int,
    slot: Slot,
)
    requires
        is_cell_plan(s, slots, nodes, edges, cells),
        0 <= r < slots.len(),
        slots[r].contains(slot),
    ensures
        is_cell_of(slots, cells, cell_of(slots, r, slot), r, slot),
        cell_of(slots, r, slot) as usize == cell_of(slots, r, slot),
{
    let i = slots[r].index_of(slot);
    assert(slots[r][i] == slot);
    let total: usize = cells.pos.len();
}

/// The cell of a vertex stands in the row of its layer.
pub proof fn law_vertices_stand_in_their_layers(
    s: Segmented,
    slots: Seq<Seq<Slot>>,
    nodes: Seq<usize>,
    edges: Seq<usize>,
    cells: Cells,
    v: usize,
)
    requires
        is_cell_plan(s, slots, nodes, edges, cells),
        s.state.nodes.contains_key(v),
    ensures
        is_cell_of(slots, cells, vertex_cell(s, slots, v), layer_in(s.state, v), Slot::Vertex(v)),
        vertex_cell(s, slots, v) as usize == vertex_cell(s, slots, v),
{
    assert(layer_in(s.state, v) < slots.len());
    lemma_cell(s, slots, nodes, edges, cells, layer_in(s.state, v), Slot::Vertex(v));
}

/// The link goes over the edge `e`, from the vertex where it starts to the one where it ends,
/// which stands one row below.
pub open spec fn is_link_of_edge(s: Segmented, cells: Cells, link: CellLink, e: usize) -> bool {
    let (p, c) = (link.parent as int, link.child as int);
    &&& link.edge == Some(e)
    &&& p < cells.pos@.len() && c < cells.pos@.len()
    &&& cells.vertex@[p] == Some(s.state.edges[e].from)
    &&& cells.vertex@[c] == Some(s.state.edges[e].to)
    &&& cells.rank@[p] + 1 == cells.rank@[c]
}

/// The link goes along the segment that ends at `q`, from one row to the next.
pub open spec fn is_link_of_segment(
    s: Segmented,
    slots: Seq<Seq<Slot>>,
    cells: Cells,
    link: CellLink,
    q: usize,
) -> bool {
    let (p, c) = (link.parent as int, link.child as int);
    &&& link.edge is None
    &&& s.qvertices.contains(q)
    &&& is_run_cell(s, slots, cells, q, p)
    &&& is_run_cell(s, slots, cells, q, c)
    &&& cells.rank@[p] + 1 == cells.rank@[c]
}

/// The cell holds the start or the end of the segment of `q`, or one of its lanes.
pub open spec fn is_run_cell(s: Segmented, slots: Seq<Seq<Slot>>, cells: Cells, q: usize, c: int) -> bool {
    let (top, end) = (layer_in(s.state, start_of(s, q)), layer_in(s.state, q));
    let r = cells.rank@[c] as int;
    &&& top <= r <= end
    &&& is_cell_of(
        slots,
        cells,
        c,
        r,
        if r == top {
            Slot::Vertex(start_of(s, q))
        } else if r == end {
            Slot::Vertex(q)
        } else {
            Slot::Segment(q)
        },
    )
}

/// The run of a segment has one cell in each row from its start to its end.
pub proof fn law_runs_have_a_cell_in_each_row(
    s: Segmented,
    slots: Seq<Seq<Slot>>,
    nodes: Seq<usize>,
    edges: Seq<usize>,
    cells: Cells,
    q: usize,
    i: int,
)
    requires
        is_cell_plan(s, slots, nodes, edges, cells),
        s.qvertices.contains(q),
        0 <= i < chain_of(s, slots, q).len(),
    ensures
        chain_of(s, slots, q).len() == layer_in(s.state, q) - layer_in(s.state, start_of(s, q)) + 1,
        is_run_cell(s, slots, cells, q, chain_of(s, slots, q)[i] as int),
        cells.rank@[chain_of(s, slots, q)[i] as int] == layer_in(s.state, start_of(s, q)) + i,
{
    assert(has_lanes(s, slots, q));
    let p = start_of(s, q);
    let (top, end) = (layer_in(s.state, p), layer_in(s.state, q));
    let r = top + i;
    assert(s.state.nodes.contains_key(p) && s.state.nodes.contains_key(q));
    assert(end < slots.len());
    if r == top {
        law_vertices_stand_in_their_layers(s, slots, nodes, edges, cells, p);
    } else if r == end {
        law_vertices_stand_in_their_layers(s, slots, nodes, edges, cells, q);
    } else {
        assert(slots[r].contains(Slot::Segment(q)));
        lemma_cell(s, slots, nodes, edges, cells, r, Slot::Segment(q));
    }
    assert(chain_of(s, slots, q)[i] == chain_cell(s, slots, q, r) as usize);
}

proof fn lemma_edge_link(
    s: Segmented,
    slots: Seq<Seq<Slot>>,
    nodes: Seq<usize>,
    edges: Seq<usize>,
    cells: Cells,
    k: int,
    i: int,
)
    requires
        is_cell_plan(s, slots, nodes, edges, cells),
        0 <= k <= edges.len(),
        0 <= i < edge_links(s, slots, edges, k).len(),
    ensures
        exists|j: int|
            0 <= j < k && is_link_of_edge(
                s,
                cells,
                edge_links(s, slots, edges, k)[i],
                #[trigger] edges[j],
            ),
    decreases k,
{
    let before = edge_links(s, slots, edges, k - 1);
    if i < before.len() {
        lemma_edge_link(s, slots, nodes, edges, cells, k - 1, i);
        assert(edge_links(s, slots, edges, k)[i] == before[i]);
    } else {
        let e = edges[k - 1];
        assert(s.state.edges.contains_key(e));
        let edge = s.state.edges[e];
        assert(s.state.nodes.contains_key(edge.from) && s.state.nodes.contains_key(edge.to));
        law_vertices_stand_in_their_layers(s, slots, nodes, edges, cells, edge.from);
        law_vertices_stand_in_their_layers(s, slots, nodes, edges, cells, edge.to);
        assert(is_link_of_edge(s, cells, edge_links(s, slots, edges, k)[i], edges[k - 1]));
    }
}

proof fn lemma_run_link(
    s: Segmented,
    slots: Seq<Seq<Slot>>,
    nodes: Seq<usize>,
    edges: Seq<usize>,
    cells: Cells,
    ends: Seq<usize>,
    k: int,
    i: int,
)
    requires
        is_cell_plan(s, slots, nodes, edges, cells),
        0 <= k <= ends.len(),
        forall|j: int| 0 <= j < k ==> s.qvertices.contains(#[trigger] ends[j]),
        0 <= i < run_links(s, slots, ends, k).len(),
    ensures
        exists|j: int|
            0 <= j < k && is_link_of_segment(
                s,
                slots,
                cells,
                run_links(s, slots, ends, k)[i],
                #[trigger] ends[j],
            ),
    decreases k,
{
    let before = run_links(s, slots, ends, k - 1);
    if i < before.len() {
        lemma_run_link(s, slots, nodes, edges, cells, ends, k - 1, i);
        assert(run_links(s, slots, ends, k)[i] == before[i]);
    } else {
        let q = ends[k - 1];
        let j = i - before.len();
        let chain = chain_of(s, slots, q);
        assert(has_lanes(s, slots, q));
        law_runs_have_a_cell_in_each_row(s, slots, nodes, edges, cells, q, j);
        law_runs_have_a_cell_in_each_row(s, slots, nodes, edges, cells, q, j + 1);
        assert(run_links(s, slots, ends, k)[i] == chain_links(chain)[j]);
        assert(is_link_of_segment(s, slots, cells, run_links(s, slots, ends, k)[i], ends[k - 1]));
    }
}

proof fn lemma_ends(s: Segmented, ids: Seq<usize>, k: int)
    requires
        0 <= k <= ids.len(),
    ensures
        forall|j: int|
            0 <= j < ends_in(s, ids, k).len() ==> s.qvertices.contains(
                #[trigger] ends_in(s, ids, k)[j],
            ) && ids.contains(ends_in(s, ids, k)[j]),
        forall|i: int|
            0 <= i < k && s.qvertices.contains(#[trigger] ids[i]) ==> ends_in(s, ids, k).contains(
                ids[i],
            ),
    decreases k,
{
    if k > 0 {
        lemma_ends(s, ids, k - 1);
        let before = ends_in(s, ids, k - 1);
        let all = ends_in(s, ids, k);
        assert forall|j: int| 0 <= j < all.len() implies s.qvertices.contains(#[trigger] all[j])
            && ids.contains(all[j]) by {
            if j < before.len() {
                assert(all[j] == before[j]);
            }
        }
        assert forall|i: int| 0 <= i < k && s.qvertices.contains(
            #[trigger] ids[i],
        ) implies all.contains(ids[i]) by {
            if i < k - 1 {
                let j = choose|j: int| 0 <= j < before.len() && before[j] == ids[i];
                assert(all[j] == ids[i]);
            } else {
                assert(all[before.len() as int] == ids[i]);
            }
        }
    }
}

/// Every link goes over an edge or along a segment, and leads from one row to the next.
pub proof fn law_links_follow_edges_and_segments(
    s: Segmented,
    slots: Seq<Seq<Slot>>,
    nodes: Seq<usize>,
    edges: Seq<usize>,
    cells: Cells,
    i: int,
)
    requires
        is_cell_plan(s, slots, nodes, edges, cells),
        0 <= i < cells.links@.len(),
    ensures
        match cells.links@[i].edge {
            Some(e) => edges.contains(e) && is_link_of_edge(s, cells, cells.links@[i], e),
            None => exists|q: usize| #[trigger]
                is_link_of_segment(s, slots, cells, cells.links@[i], q),
        },
        cells.rank@[cells.links@[i].parent as int] + 1
            == cells.rank@[cells.links@[i].child as int],
{
    let over = edge_links(s, slots, edges, edges.len() as int);
    let ends = ends_in(s, nodes, nodes.len() as int);
    lemma_ends(s, nodes, nodes.len() as int);
    if i < over.len() {
        lemma_edge_link(s, slots, nodes, edges, cells, edges.len() as int, i);
        assert(cells.links@[i] == over[i]);
        let j = choose|j: int|
            0 <= j < edges.len() && is_link_of_edge(s, cells, over[i], #[trigger] edges[j]);
        assert(edges.contains(edges[j]));
    } else {
        let k = i - over.len();
        lemma_run_link(s, slots, nodes, edges, cells, ends, ends.len() as int, k);
        assert(cells.links@[i] == run_links(s, slots, ends, ends.len() as int)[k]);
        let j = choose|j: int|
            0 <= j < ends.len() && is_link_of_segment(
                s,
                slots,
                cells,
                cells.links@[i],
                #[trigger] ends[j],
            );
        assert(is_link_of_segment(s, slots, cells, cells.links@[i], ends[j]));
    }
}

/// Links lead from a row to the next one.
pub proof fn law_links_step_down(
    s: Segmented,
    slots: Seq<Seq<Slot>>,
    nodes: Seq<usize>,
    edges: Seq<usize>,
    cells: Cells,
)
    requires
        is_cell_plan(s, slots, nodes, edges, cells),
    ensures
        links_step_down(cells),
{
    assert forall|i: int|
        #![trigger cells.links@[i]]
        0 <= i < cells.links@.len() implies cells.rank@[cells.links@[i].parent as int] + 1
        == cells.rank@[cells.links@[i].child as int] by {
        law_links_follow_edges_and_segments(s, slots, nodes, edges, cells, i);
    }
}

/// Every edge from one layer to the next has a link, unless it starts and ends a segment.
pub proof fn law_short_edges_are_linked(
    s: Segmented,
    slots: Seq<Seq<Slot>>,
    nodes: Seq<usize>,
    edges: Seq<usize>,
    cells: Cells,
    k: int,
)
    requires
        is_cell_plan(s, slots, nodes, edges, cells),
        0 <= k < edges.len(),
        layer_in(s.state, s.state.edges[edges[k]].to) == layer_in(
            s.state,
            s.state.edges[edges[k]].from,
        ) + 1,
        !(s.pvertices.contains(s.state.edges[edges[k]].from) && s.qvertices.contains(
            s.state.edges[edges[k]].to,
        )),
    ensures
        exists|i: int|
            0 <= i < cells.links@.len() && is_link_of_edge(
                s,
                cells,
                #[trigger] cells.links@[i],
                edges[k],
            ),
{
    let n = edges.len() as int;
    let all = edge_links(s, slots, edges, n);
    let i = lemma_is_linked(s, slots, edges, n, k);
    lemma_edge_link(s, slots, nodes, edges, cells, n, i);
    assert(cells.links@[i] == all[i]);
}

proof fn lemma_is_linked(s: Segmented, slots: Seq<Seq<Slot>>, edges: Seq<usize>, n: int, k: int) -> (i: int)
    requires
        0 <= k < n <= edges.len(),
        layer_in(s.state, s.state.edges[edges[k]].to) == layer_in(
            s.state,
            s.state.edges[edges[k]].from,
        ) + 1,
        !(s.pvertices.contains(s.state.edges[edges[k]].from) && s.qvertices.contains(
            s.state.edges[edges[k]].to,
        )),
    ensures
        0 <= i < edge_links(s, slots, edges, n).len(),
        edge_links(s, slots, edges, n)[i].edge == Some(edges[k]),
    decreases n,
{
    let before = edge_links(s, slots, edges, n - 1);
    if k == n - 1 {
        before.len() as int
    } else {
        let i = lemma_is_linked(s, slots, edges, n - 1, k);
        assert(edge_links(s, slots, edges, n)[i] == before[i]);
        i
    }
}

} // verus!
