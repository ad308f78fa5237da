//! One sweep over the rows, and the search for the order with the fewest crossings.
use crate::counting::{lemma_distinct_in_range, lemma_distinct_total, total};
use crate::sorting::{lemma_pairs_are_sorted, sort_pairs, sorted_pairs};
use crate::triskel::crossing::{
    lemma_covers, lemma_crossings_bound, lemma_same_slots, lemma_slot_weight,
};
use crate::triskel::lanes::{
    assign_container_positions, flat, has_room, has_small_positions, is_normal, lemma_absorbed,
    lemma_extracted, lemma_merged, lemma_normalized, lemma_placed, lemma_seated_bound, merge,
    merged, normalized, pair_orders, placed, rows_of, seated, times, vertex_slots, vertices, wished,
    with_orders, Block, Layer, Net, Slot, Wiring,
};
use vstd::prelude::*;

verus! {

/// Each row lists distinct vertices, and a vertex stands in the row of its level alone.
pub open spec fn is_layered(rows: Seq<Seq<usize>>, level: Seq<int>) -> bool {
    &&& forall|r: int, i: int|
        0 <= r < rows.len() && 0 <= i < rows[r].len() ==> (#[trigger] rows[r][i]) < level.len()
            && level[rows[r][i] as int] == r
    &&& forall|r: int| 0 <= r < rows.len() ==> (#[trigger] rows[r]).no_duplicates()
}

/// A segment starts at `p` and ends further on.
pub open spec fn starts_segment(
    net: Wiring,
    rows: Seq<Seq<usize>>,
    level: Seq<int>,
    p: usize,
) -> bool {
    let q = net.far(p);
    &&& p < level.len()
    &&& net.ahead[p as int].len() > 0
    &&& q < level.len()
    &&& net.qs.contains(q)
    &&& net.back[q as int].len() > 0
    &&& net.back[q as int][0] == p
    &&& 0 <= level[p as int] < level[q as int] < rows.len()
    &&& rows[level[p as int]].contains(p)
    &&& rows[level[q as int]].contains(q)
}

/// A segment ends at `q`.
pub open spec fn ends_segment(net: Wiring, level: Seq<int>, q: usize) -> bool {
    let p = net.back[q as int][0];
    &&& q < level.len()
    &&& net.back[q as int].len() > 0
    &&& net.ps.contains(p)
    &&& net.far(p) == q
}

/// Segments lead from their starts to their ends, further on.
pub open spec fn has_segments(net: Wiring, rows: Seq<Seq<usize>>, level: Seq<int>) -> bool {
    &&& forall|p: usize| #[trigger] net.ps.contains(p) ==> starts_segment(net, rows, level, p)
    &&& forall|q: usize| #[trigger] net.qs.contains(q) ==> ends_segment(net, level, q)
}

/// What a sweep may go over.
pub open spec fn is_sweepable(net: Wiring, rows: Seq<Seq<usize>>, level: Seq<int>) -> bool {
    &&& rows.len() > 0
    &&& net.is_wired(level.len())
    &&& is_layered(rows, level)
    &&& has_segments(net, rows, level)
}

/// Row `r` holds its vertices, and the segments that pass through it.
pub open spec fn belongs(
    net: Wiring,
    rows: Seq<Seq<usize>>,
    level: Seq<int>,
    r: int,
    slot: Slot,
) -> bool {
    match slot {
        Slot::Vertex(v) => rows[r].contains(v),
        Slot::Segment(q) => net.qs.contains(q) && level[net.back[q as int][0] as int] < r
            < level[q as int],
    }
}

/// The elements are those that belong to row `r`, each once.
pub open spec fn fills(
    net: Wiring,
    rows: Seq<Seq<usize>>,
    level: Seq<int>,
    r: int,
    row: Seq<Slot>,
) -> bool {
    &&& row.no_duplicates()
    &&& forall|slot: Slot| #[trigger] row.contains(slot) <==> belongs(net, rows, level, r, slot)
}

/// The vertices that are to be merged into row `r`: those that end no segment, each once.
pub open spec fn are_free(
    net: Wiring,
    rows: Seq<Seq<usize>>,
    r: int,
    nodes: Seq<(usize, usize)>,
) -> bool {
    &&& wished(nodes).no_duplicates()
    &&& forall|v: usize| #[trigger]
        wished(nodes).contains(v) <==> rows[r].contains(v) && !net.qs.contains(v)
}

/// The row that follows `row`, before neighbours are swapped.
pub open spec fn next_row(
    net: Wiring,
    row: Seq<Block>,
    nodes: Seq<(usize, usize)>,
    child: Seq<usize>,
) -> Seq<Block> {
    normalized(net.extracted(merged(placed(net.absorbed(row)), nodes), child))
}

/// The identifier in a slot.
pub open spec fn id_of(slot: Slot) -> usize {
    match slot {
        Slot::Vertex(id) => id,
        Slot::Segment(id) => id,
    }
}

/// What may lead into a row at most.
pub open spec fn limit(net: Wiring) -> nat {
    total(degrees(net.back)) + total(degrees(net.ahead)) + net.back.len()
}

pub open spec fn degrees(lists: Seq<Seq<usize>>) -> Seq<nat> {
    lists.map_values(|list: Seq<usize>| list.len())
}

/// The identifiers in a row are distinct.
proof fn lemma_ids(net: Wiring, rows: Seq<Seq<usize>>, level: Seq<int>, r: int, row: Seq<Slot>)
    requires
        is_sweepable(net, rows, level),
        0 <= r < rows.len(),
        fills(net, rows, level, r, row),
    ensures
        row.map_values(|slot: Slot| id_of(slot) as int).no_duplicates(),
        forall|i: int| 0 <= i < row.len() ==> id_of(#[trigger] row[i]) < level.len(),
        row.len() <= level.len(),
{
    let ids = row.map_values(|slot: Slot| id_of(slot) as int);
    assert forall|i: int| 0 <= i < row.len() implies id_of(#[trigger] row[i]) < level.len() && (
    level[id_of(row[i]) as int] == r <==> row[i] is Vertex) by {
        assert(row.contains(row[i]));
        match row[i] {
            Slot::Vertex(v) => {
                assert(rows[r].contains(v));
                let k = choose|k: int| 0 <= k < rows[r].len() && rows[r][k] == v;
                assert(rows[r][k] < level.len());
            },
            Slot::Segment(q) => {
                assert(ends_segment(net, level, q));
            },
        }
    }
    assert forall|i: int, j: int| 0 <= i < ids.len() && 0 <= j < ids.len() && i != j implies ids[i]
        != ids[j] by {
        assert(row[i] != row[j]);
        assert(ids[i] == id_of(row[i]) && ids[j] == id_of(row[j]));
    }
    assert forall|i: int| 0 <= i < ids.len() implies 0 <= #[trigger] ids[i] < level.len() by {
        assert(id_of(row[i]) < level.len());
    }
    lemma_distinct_in_range(ids, 0, level.len() as int);
}

proof fn lemma_total_more(a: Seq<nat>)
    ensures
        total(a.map_values(|x: nat| x + 1)) == total(a) + a.len(),
    decreases a.len(),
{
    let b = a.map_values(|x: nat| x + 1);
    if a.len() > 0 {
        lemma_total_more(a.drop_last());
        assert(b.drop_last() =~= a.drop_last().map_values(|x: nat| x + 1));
    }
}

proof fn lemma_slots_total(net: Wiring, row: Seq<Slot>)
    ensures
        net.slots_weight(row) == total(row.map_values(|slot: Slot| net.slot_weight(slot))),
    decreases row.len(),
{
    let f = |slot: Slot| net.slot_weight(slot);
    if row.len() > 0 {
        lemma_slots_total(net, row.drop_last());
        assert(row.map_values(f).drop_last() =~= row.drop_last().map_values(f));
    }
}

/// A row weighs no more than the limit.
pub proof fn lemma_row_limit(
    net: Wiring,
    rows: Seq<Seq<usize>>,
    level: Seq<int>,
    r: int,
    row: Seq<Block>,
)
    requires
        is_sweepable(net, rows, level),
        0 <= r < rows.len(),
        fills(net, rows, level, r, flat(row)),
    ensures
        net.row_weight(row) <= limit(net),
        net.covers(row),
        has_room(flat(row), level.len()),
        flat(row).len() <= level.len(),
{
    let slots = flat(row);
    lemma_ids(net, rows, level, r, slots);
    lemma_slot_weight(net, row);
    lemma_slots_total(net, slots);
    let f = |slot: Slot| net.slot_weight(slot);
    let ids = slots.map_values(|slot: Slot| id_of(slot) as int);
    let more = degrees(net.back).map_values(|x: nat| x + 1);
    let picked = slots.map_values(f);
    lemma_total_more(degrees(net.back));
    assert forall|i: int| 0 <= i < ids.len() implies 0 <= #[trigger] ids[i] < more.len() by {
        assert(id_of(slots[i]) < level.len());
    }
    assert forall|i: int| 0 <= i < picked.len() implies #[trigger] picked[i] <= more[ids[i]] by {
        assert(id_of(slots[i]) < level.len());
    }
    lemma_distinct_total(more, ids, picked);
    assert forall|i: int| 0 <= i < slots.len() implies match #[trigger] slots[i] {
        Slot::Vertex(id) => id < level.len(),
        Slot::Segment(_) => true,
    } by {
        assert(id_of(slots[i]) < level.len());
    }
    assert(crate::triskel::crossing::covers_slots(net, slots)) by {
        assert forall|v: usize| #[trigger] slots.contains(Slot::Vertex(v)) implies v
            < net.back.len() by {
            let i = choose|i: int| 0 <= i < slots.len() && slots[i] == Slot::Vertex(v);
            assert(id_of(slots[i]) < level.len());
        }
    }
    lemma_covers(net, row);
}

/// Counting how often an element stands in a list without repetitions.
proof fn lemma_times_once(row: Seq<Slot>, slot: Slot)
    requires
        row.no_duplicates(),
    ensures
        times(row, slot) == if row.contains(slot) {
            1nat
        } else {
            0nat
        },
{
    broadcast use vstd::seq_lib::group_to_multiset_ensures;

    row.lemma_multiset_has_no_duplicates();
    if row.contains(slot) {
        assert(row.to_multiset().count(slot) > 0);
        assert(row.to_multiset().contains(slot));
    } else {
        assert(row.to_multiset().count(slot) == 0);
    }
}

proof fn lemma_once_times(row: Seq<Slot>)
    requires
        forall|slot: Slot| #[trigger] times(row, slot) <= 1,
    ensures
        row.no_duplicates(),
        forall|slot: Slot| #[trigger] row.contains(slot) <==> times(row, slot) == 1,
{
    broadcast use vstd::seq_lib::group_to_multiset_ensures;

    assert forall|slot: Slot| row.to_multiset().contains(slot) implies row.to_multiset().count(slot)
        == 1 by {
        assert(times(row, slot) <= 1);
        assert(row.to_multiset().count(slot) > 0);
    }
    row.lemma_multiset_has_no_duplicates_conv();
    assert forall|slot: Slot| #[trigger] row.contains(slot) <==> times(row, slot) == 1 by {
        assert(times(row, slot) <= 1);
    }
}

/// A row after its starts of segments have been absorbed.
pub open spec fn belongs_absorbed(
    net: Wiring,
    rows: Seq<Seq<usize>>,
    level: Seq<int>,
    r: int,
    slot: Slot,
) -> bool {
    match slot {
        Slot::Vertex(v) => rows[r].contains(v) && !net.ps.contains(v),
        Slot::Segment(q) => net.qs.contains(q) && level[net.back[q as int][0] as int] <= r
            < level[q as int],
    }
}

#[verifier::rlimit(40)]
pub proof fn lemma_absorbed_fills(
    net: Wiring,
    rows: Seq<Seq<usize>>,
    level: Seq<int>,
    r: int,
    row: Seq<Block>,
)
    requires
        is_sweepable(net, rows, level),
        0 <= r < rows.len(),
        is_normal(row),
        fills(net, rows, level, r, flat(row)),
    ensures
        net.starts_lead_on(row),
        flat(net.absorbed(row)).no_duplicates(),
        flat(net.absorbed(row)).len() == flat(row).len(),
        forall|slot: Slot| #[trigger]
            flat(net.absorbed(row)).contains(slot) <==> belongs_absorbed(net, rows, level, r, slot),
{
    let a = flat(row);
    let b = flat(net.absorbed(row));
    let f = |slot: Slot| net.absorbed_slot(slot);
    lemma_absorbed(net, row);
    assert forall|i: int| 0 <= i < row.len() implies match #[trigger] row[i] {
        Block::Vertex(id) => net.ps.contains(id) ==> id < net.ahead.len()
            && net.ahead[id as int].len() > 0,
        Block::Container(_, _) => true,
    } by {
        match row[i] {
            Block::Vertex(id) => {
                if net.ps.contains(id) {
                    assert(starts_segment(net, rows, level, id));
                }
            },
            Block::Container(_, _) => {},
        }
    }
    // What an element of the row says of its level.
    assert forall|i: int| 0 <= i < a.len() implies belongs(net, rows, level, r, #[trigger] a[i]) && (
    a[i] matches Slot::Vertex(v) ==> v < level.len() && level[v as int] == r) && (
    a[i] matches Slot::Segment(q) ==> ends_segment(net, level, q)) by {
        assert(a.contains(a[i]));
        match a[i] {
            Slot::Vertex(v) => {
                let k = choose|k: int| 0 <= k < rows[r].len() && rows[r][k] == v;
                assert(rows[r][k] < level.len());
            },
            Slot::Segment(q) => {},
        }
    }
    assert forall|i: int, j: int| 0 <= i < b.len() && 0 <= j < b.len() && i != j implies b[i]
        != b[j] by {
        assert(b[i] == f(a[i]) && b[j] == f(a[j]));
        assert(a[i] != a[j]);
        assert(belongs(net, rows, level, r, a[i]) && belongs(net, rows, level, r, a[j]));
        if b[i] == b[j] {
            match a[i] {
                Slot::Vertex(v) => {
                    match a[j] {
                        Slot::Vertex(w) => {
                            assert(net.ps.contains(v) && net.ps.contains(w));
                            assert(starts_segment(net, rows, level, v));
                            assert(starts_segment(net, rows, level, w));
                        },
                        Slot::Segment(q) => {
                            assert(net.ps.contains(v));
                            assert(starts_segment(net, rows, level, v));
                        },
                    }
                },
                Slot::Segment(q) => {
                    match a[j] {
                        Slot::Vertex(w) => {
                            assert(net.ps.contains(w));
                            assert(starts_segment(net, rows, level, w));
                        },
                        Slot::Segment(_) => {},
                    }
                },
            }
        }
    }
    assert forall|slot: Slot| #[trigger] b.contains(slot) <==> belongs_absorbed(
        net,
        rows,
        level,
        r,
        slot,
    ) by {
        if b.contains(slot) {
            let i = choose|i: int| 0 <= i < b.len() && b[i] == slot;
            assert(b[i] == f(a[i]));
            assert(belongs(net, rows, level, r, a[i]));
            match a[i] {
                Slot::Vertex(v) => {
                    if net.ps.contains(v) {
                        assert(starts_segment(net, rows, level, v));
                    }
                },
                Slot::Segment(_) => {},
            }
        }
        if belongs_absorbed(net, rows, level, r, slot) {
            match slot {
                Slot::Vertex(v) => {
                    assert(belongs(net, rows, level, r, slot));
                    assert(a.contains(slot));
                    let i = choose|i: int| 0 <= i < a.len() && a[i] == slot;
                    assert(b[i] == slot);
                },
                Slot::Segment(q) => {
                    assert(ends_segment(net, level, q));
                    let p = net.back[q as int][0];
                    assert(starts_segment(net, rows, level, p));
                    let from = if level[p as int] == r {
                        Slot::Vertex(p)
                    } else {
                        slot
                    };
                    assert(belongs(net, rows, level, r, from));
                    assert(a.contains(from));
                    let i = choose|i: int| 0 <= i < a.len() && a[i] == from;
                    assert(b[i] == slot);
                },
            }
        }
    }
}

/// The next row holds what belongs to it.
#[verifier::rlimit(40)]
pub proof fn lemma_next_row(
    net: Wiring,
    rows: Seq<Seq<usize>>,
    level: Seq<int>,
    r: int,
    row: Seq<Block>,
    nodes: Seq<(usize, usize)>,
)
    requires
        is_sweepable(net, rows, level),
        0 <= r < rows.len() - 1,
        is_normal(row),
        fills(net, rows, level, r, flat(row)),
        are_free(net, rows, r + 1, nodes),
    ensures
        ({
            let mixed = merged(placed(net.absorbed(row)), nodes);
            &&& flat(mixed).no_duplicates()
            &&& forall|i: int|
                0 <= i < rows[r + 1].len() && net.qs.contains(#[trigger] rows[r + 1][i]) ==> flat(
                    mixed,
                ).contains(Slot::Segment(rows[r + 1][i]))
        }),
        is_normal(next_row(net, row, nodes, rows[r + 1])),
        fills(net, rows, level, r + 1, flat(next_row(net, row, nodes, rows[r + 1]))),
{
    let child = rows[r + 1];
    let taken = placed(net.absorbed(row));
    let mixed = merged(taken, nodes);
    let a = flat(mixed);
    lemma_absorbed_fills(net, rows, level, r, row);
    lemma_absorbed(net, row);
    lemma_placed(net.absorbed(row));
    let places = vertex_slots(wished(nodes));
    assert(places.no_duplicates());
    assert forall|slot: Slot| #[trigger] times(a, slot) == if belongs_merged(
        net,
        rows,
        level,
        r,
        slot,
    ) {
        1nat
    } else {
        0nat
    } by {
        lemma_merged(taken, nodes, slot);
        lemma_times_once(places, slot);
        lemma_times_once(flat(taken), slot);
        match slot {
            Slot::Vertex(v) => {
                assert(places.contains(slot) <==> wished(nodes).contains(v)) by {
                    if wished(nodes).contains(v) {
                        let i = choose|i: int| 0 <= i < nodes.len() && wished(nodes)[i] == v;
                        assert(places[i] == slot);
                    }
                    if places.contains(slot) {
                        let i = choose|i: int| 0 <= i < places.len() && places[i] == slot;
                        assert(wished(nodes)[i] == v);
                    }
                }
            },
            Slot::Segment(q) => {
                assert(flat(taken).contains(slot) <==> belongs_absorbed(net, rows, level, r, slot));
            },
        }
    }
    lemma_once_times(a);
    assert forall|i: int| 0 <= i < child.len() && net.qs.contains(#[trigger] child[i]) implies flat(
        mixed,
    ).contains(Slot::Segment(child[i])) by {
        let q = child[i];
        assert(ends_segment(net, level, q));
        let p = net.back[q as int][0];
        assert(starts_segment(net, rows, level, p));
        assert(rows[r + 1][i] == q);
        assert(belongs_merged(net, rows, level, r, Slot::Segment(q)));
        assert(times(a, Slot::Segment(q)) == 1);
    }
    lemma_extracted(net, mixed, child);
    let done = net.extracted(mixed, child);
    lemma_normalized(done);
    let b = flat(done);
    let f = |slot: Slot| net.ended_slot(child, slot);
    assert forall|i: int, j: int| 0 <= i < b.len() && 0 <= j < b.len() && i != j implies b[i]
        != b[j] by {
        assert(b[i] == f(a[i]) && b[j] == f(a[j]));
        assert(a[i] != a[j]);
        assert(a.contains(a[i]) && a.contains(a[j]));
        assert(times(a, a[i]) == 1 && times(a, a[j]) == 1);
    }
    assert forall|slot: Slot| #[trigger] b.contains(slot) <==> belongs(net, rows, level, r + 1, slot) by {
        if b.contains(slot) {
            let i = choose|i: int| 0 <= i < b.len() && b[i] == slot;
            assert(b[i] == f(a[i]));
            assert(a.contains(a[i]));
            assert(times(a, a[i]) == 1);
            match a[i] {
                Slot::Vertex(v) => {},
                Slot::Segment(q) => {
                    assert(ends_segment(net, level, q));
                    let p = net.back[q as int][0];
                    assert(starts_segment(net, rows, level, p));
                    if child.contains(q) {
                        let k = choose|k: int| 0 <= k < child.len() && child[k] == q;
                        assert(rows[r + 1][k] == q);
                    } else {
                        assert(level[q as int] != r + 1);
                    }
                },
            }
        }
        if belongs(net, rows, level, r + 1, slot) {
            let from = match slot {
                Slot::Vertex(v) => if net.qs.contains(v) {
                    Slot::Segment(v)
                } else {
                    slot
                },
                Slot::Segment(_) => slot,
            };
            match slot {
                Slot::Vertex(v) => {
                    let k = choose|k: int| 0 <= k < child.len() && child[k] == v;
                    assert(rows[r + 1][k] == v);
                    if net.qs.contains(v) {
                        assert(ends_segment(net, level, v));
                        assert(starts_segment(net, rows, level, net.back[v as int][0]));
                    }
                },
                Slot::Segment(q) => {
                    assert(!child.contains(q)) by {
                        if child.contains(q) {
                            let k = choose|k: int| 0 <= k < child.len() && child[k] == q;
                            assert(rows[r + 1][k] == q);
                        }
                    }
                },
            }
            assert(belongs_merged(net, rows, level, r, from));
            assert(times(a, from) == 1);
            assert(a.contains(from));
            let i = choose|i: int| 0 <= i < a.len() && a[i] == from;
            assert(b[i] == slot);
        }
    }
}

/// A row after vertices of the next row have been merged in.
pub open spec fn belongs_merged(
    net: Wiring,
    rows: Seq<Seq<usize>>,
    level: Seq<int>,
    r: int,
    slot: Slot,
) -> bool {
    match slot {
        Slot::Vertex(v) => rows[r + 1].contains(v) && !net.qs.contains(v),
        Slot::Segment(q) => belongs_absorbed(net, rows, level, r, slot),
    }
}

// Free vertices.

/// The vertices of a list that end no segment.
pub open spec fn others(net: Wiring, child: Seq<usize>) -> Seq<usize>
    decreases child.len(),
{
    if child.len() == 0 {
        Seq::empty()
    } else {
        let before = others(net, child.drop_last());
        if net.qs.contains(child.last()) {
            before
        } else {
            before.push(child.last())
        }
    }
}

proof fn lemma_others(net: Wiring, child: Seq<usize>)
    requires
        child.no_duplicates(),
    ensures
        others(net, child).no_duplicates(),
        forall|v: usize| #[trigger]
            others(net, child).contains(v) <==> child.contains(v) && !net.qs.contains(v),
    decreases child.len(),
{
    if child.len() > 0 {
        let shorter = child.drop_last();
        let before = others(net, shorter);
        let last = child.last();
        lemma_others(net, shorter);
        assert(!shorter.contains(last)) by {
            if shorter.contains(last) {
                let i = choose|i: int| 0 <= i < shorter.len() && shorter[i] == last;
                assert(child[i] == child[child.len() - 1]);
            }
        }
        assert(!before.contains(last));
        assert forall|v: usize| #[trigger] others(net, child).contains(v) <==> child.contains(v)
            && !net.qs.contains(v) by {
            assert(before.contains(v) <==> shorter.contains(v) && !net.qs.contains(v));
            assert(child =~= shorter.push(last));
            if before.contains(v) {
                let i = choose|i: int| 0 <= i < before.len() && before[i] == v;
                assert(others(net, child)[i] == v);
            }
            if shorter.contains(v) {
                let i = choose|i: int| 0 <= i < shorter.len() && shorter[i] == v;
                assert(child[i] == v);
            }
            if v == last {
                assert(child[child.len() - 1] == v);
                if !net.qs.contains(v) {
                    assert(others(net, child)[before.len() as int] == v);
                }
            }
            if child.contains(v) && v != last {
                let i = choose|i: int| 0 <= i < child.len() && child[i] == v;
                assert(shorter[i] == v);
            }
            if others(net, child).contains(v) && v != last {
                let i = choose|i: int|
                    0 <= i < others(net, child).len() && others(net, child)[i] == v;
                if i < before.len() {
                    assert(before[i] == v);
                }
            }
        }
    }
}

proof fn lemma_wishes_are_others(net: Wiring, orders: Seq<usize>, child: Seq<usize>)
    ensures
        wished(net.wishes(orders, child)) == others(net, child),
        wished(net.free_orders(orders, child)) == others(net, child),
    decreases child.len(),
{
    assert(wished(Seq::empty()) =~= Seq::empty());
    if child.len() > 0 {
        lemma_wishes_are_others(net, orders, child.drop_last());
        assert(wished(net.wishes(orders, child)) =~= others(net, child));
        assert(wished(net.free_orders(orders, child)) =~= others(net, child));
    }
}

/// Sorting keeps which vertices a list names, and that it names none twice.
pub proof fn lemma_sorted_wishes(list: Seq<(usize, usize)>)
    requires
        wished(list).no_duplicates(),
    ensures
        wished(sorted_pairs(list)).no_duplicates(),
        sorted_pairs(list).len() == list.len(),
        forall|v: usize| #[trigger]
            wished(sorted_pairs(list)).contains(v) <==> wished(list).contains(v),
{
    broadcast use vstd::seq_lib::group_to_multiset_ensures;

    let out = sorted_pairs(list);
    lemma_pairs_are_sorted(list);
    assert forall|pair: (usize, usize)| #[trigger] out.contains(pair) <==> list.contains(pair) by {
        assert(out.to_multiset().count(pair) == list.to_multiset().count(pair));
    }
    assert(list.no_duplicates()) by {
        assert forall|i: int, j: int| 0 <= i < list.len() && 0 <= j < list.len() && i != j implies list[i]
            != list[j] by {
            assert(wished(list)[i] != wished(list)[j]);
        }
    }
    list.lemma_multiset_has_no_duplicates();
    assert(out.no_duplicates()) by {
        out.lemma_multiset_has_no_duplicates_conv();
    }
    assert forall|i: int, j: int| 0 <= i < out.len() && 0 <= j < out.len() && i != j implies wished(
        out,
    )[i] != wished(out)[j] by {
        assert(out.contains(out[i]) && out.contains(out[j]));
        let a = choose|a: int| 0 <= a < list.len() && list[a] == out[i];
        let b = choose|b: int| 0 <= b < list.len() && list[b] == out[j];
        assert(out[i] != out[j]);
        assert(wished(list)[a] != wished(list)[b]);
    }
    assert forall|v: usize| #[trigger] wished(out).contains(v) <==> wished(list).contains(v) by {
        if wished(out).contains(v) {
            let i = choose|i: int| 0 <= i < out.len() && wished(out)[i] == v;
            assert(out.contains(out[i]));
            let a = choose|a: int| 0 <= a < list.len() && list[a] == out[i];
            assert(wished(list)[a] == v);
        }
        if wished(list).contains(v) {
            let a = choose|a: int| 0 <= a < list.len() && wished(list)[a] == v;
            assert(list.contains(list[a]));
            assert(out.contains(list[a]));
            let i = choose|i: int| 0 <= i < out.len() && out[i] == list[a];
            assert(wished(out)[i] == v);
        }
    }
}

pub proof fn lemma_free(
    net: Wiring,
    rows: Seq<Seq<usize>>,
    level: Seq<int>,
    r: int,
    orders: Seq<usize>,
)
    requires
        is_layered(rows, level),
        0 <= r < rows.len(),
    ensures
        are_free(net, rows, r, sorted_pairs(net.wishes(orders, rows[r]))),
        are_free(net, rows, r, sorted_pairs(net.free_orders(orders, rows[r]))),
{
    lemma_others(net, rows[r]);
    lemma_wishes_are_others(net, orders, rows[r]);
    lemma_sorted_wishes(net.wishes(orders, rows[r]));
    lemma_sorted_wishes(net.free_orders(orders, rows[r]));
}

/// Identifiers by their orders.
pub open spec fn sorted_row(row: Seq<usize>, orders: Seq<usize>) -> Seq<usize> {
    wished(sorted_pairs(with_orders(row, orders)))
}

pub proof fn lemma_sorted_row(row: Seq<usize>, orders: Seq<usize>)
    requires
        row.no_duplicates(),
    ensures
        sorted_row(row, orders).no_duplicates(),
        sorted_row(row, orders).len() == row.len(),
        forall|v: usize| #[trigger] sorted_row(row, orders).contains(v) <==> row.contains(v),
{
    assert(wished(with_orders(row, orders)) =~= row);
    lemma_sorted_wishes(with_orders(row, orders));
}

/// Sorts identifiers by their orders.
pub(crate) fn sort_row(row: &Vec<usize>, orders: &Vec<usize>) -> (out: Vec<usize>)
    requires
        forall|i: int| 0 <= i < row@.len() ==> #[trigger] row@[i] < orders@.len(),
    ensures
        out@ == sorted_row(row@, orders@),
{
    let pairs = pair_orders(row, orders);
    let sorted = sort_pairs(&pairs);
    let mut out: Vec<usize> = Vec::new();
    for i in 0..sorted.len()
        invariant
            out@ == wished(sorted@).take(i as int),
    {
        out.push(sorted[i].1);
        assert(out@ =~= wished(sorted@).take(i + 1));
    }
    assert(out@ =~= wished(sorted@));
    out
}

/// Rows of vertices alone, as elements.
pub proof fn lemma_flat_vertices(ids: Seq<usize>)
    ensures
        flat(vertices(ids)) == vertex_slots(ids),
    decreases ids.len(),
{
    if ids.len() == 0 {
        assert(flat(vertices(ids)) =~= vertex_slots(ids));
    } else {
        lemma_flat_vertices(ids.drop_last());
        assert(vertices(ids).drop_last() =~= vertices(ids.drop_last()));
        assert(flat(vertices(ids)) =~= vertex_slots(ids));
    }
}

/// The first row holds its vertices alone.
pub proof fn lemma_first_row(net: Wiring, rows: Seq<Seq<usize>>, level: Seq<int>)
    requires
        is_sweepable(net, rows, level),
    ensures
        is_normal(normalized(vertices(rows[0]))),
        fills(net, rows, level, 0, flat(normalized(vertices(rows[0])))),
{
    let ids = rows[0];
    let slots = vertex_slots(ids);
    lemma_flat_vertices(ids);
    lemma_normalized(vertices(ids));
    assert forall|slot: Slot| #[trigger] slots.contains(slot) <==> belongs(net, rows, level, 0, slot) by {
        match slot {
            Slot::Vertex(v) => {
                if ids.contains(v) {
                    let i = choose|i: int| 0 <= i < ids.len() && ids[i] == v;
                    assert(slots[i] == slot);
                }
                if slots.contains(slot) {
                    let i = choose|i: int| 0 <= i < slots.len() && slots[i] == slot;
                    assert(ids[i] == v);
                }
            },
            Slot::Segment(q) => {
                if net.qs.contains(q) {
                    assert(ends_segment(net, level, q));
                    assert(starts_segment(net, rows, level, net.back[q as int][0]));
                }
            },
        }
    }
}

// Sweeps.

/// A row with the orders and the crossings so far.
pub struct Swept {
    pub row: Seq<Block>,
    pub orders: Seq<usize>,
    pub crossings: nat,
}

/// A sweep from one row to the next, whose vertices are `child`.
pub open spec fn sweep_on(net: Wiring, state: Swept, child: Seq<usize>) -> Swept {
    let orders = seated(net.absorbed(state.row), state.orders);
    let nodes = sorted_pairs(net.wishes(orders, child));
    let row = net.settled(orders, placed(next_row(net, state.row, nodes, child)));
    Swept {
        row,
        orders: seated(row, orders),
        crossings: state.crossings + net.score(orders, row),
    }
}

/// A sweep over the rows up to row `r`.
pub open spec fn swept(net: Wiring, rows: Seq<Seq<usize>>, orders: Seq<usize>, r: int) -> Swept
    decreases r,
{
    if r <= 0 {
        Swept { row: normalized(vertices(rows[0])), orders, crossings: 0 }
    } else {
        sweep_on(net, swept(net, rows, orders, r - 1), rows[r])
    }
}

/// Orders stay below the number of vertices.
pub open spec fn are_bounded(orders: Seq<usize>) -> bool {
    forall|v: int| 0 <= v < orders.len() ==> #[trigger] orders[v] <= orders.len()
}

/// The numbers that come up fit.
pub open spec fn fits(net: Wiring, height: nat) -> bool {
    &&& 2 * net.back.len() <= usize::MAX
    &&& height * (limit(net) * limit(net)) <= usize::MAX
}

/// Sweeps from one row to the next.
#[verifier::rlimit(40)]
fn sweep_step(
    net: &Net,
    layer: Layer,
    orders: &mut Vec<usize>,
    child: &Vec<usize>,
    Ghost(rows): Ghost<Seq<Seq<usize>>>,
    Ghost(level): Ghost<Seq<int>>,
    Ghost(r): Ghost<int>,
) -> (res: (Layer, usize))
    requires
        is_sweepable(net@, rows, level),
        0 <= r < rows.len() - 1,
        child@ == rows[r + 1],
        is_normal(layer@),
        fills(net@, rows, level, r, flat(layer@)),
        old(orders)@.len() == level.len(),
        are_bounded(old(orders)@),
        2 * level.len() <= usize::MAX,
        limit(net@) * limit(net@) <= usize::MAX,
    ensures
        ({
            let before = Swept { row: layer@, orders: old(orders)@, crossings: 0 };
            let after = sweep_on(net@, before, child@);
            &&& res.0@ == after.row
            &&& final(orders)@ == after.orders
            &&& res.1 == after.crossings
        }),
        is_normal(res.0@),
        fills(net@, rows, level, r + 1, flat(res.0@)),
        final(orders)@.len() == level.len(),
        are_bounded(final(orders)@),
        res.1 <= limit(net@) * limit(net@),
{
    let ghost row = layer@;
    let ghost n = level.len();
    let mut layer = layer;
    proof {
        lemma_absorbed_fills(net@, rows, level, r, row);
        lemma_absorbed(net@, row);
        lemma_row_limit(net@, rows, level, r, row);
        lemma_placed(net@.absorbed(row));
    }
    net.absorb_p(&mut layer);
    proof {
        let slots = flat(layer@);
        assert forall|i: int| 0 <= i < slots.len() implies match #[trigger] slots[i] {
            Slot::Vertex(id) => id < n,
            Slot::Segment(_) => true,
        } by {
            assert(slots.contains(slots[i]));
            match slots[i] {
                Slot::Vertex(id) => {
                    assert(rows[r].contains(id));
                    let k = choose|k: int| 0 <= k < rows[r].len() && rows[r][k] == id;
                    assert(rows[r][k] < level.len());
                },
                Slot::Segment(_) => {},
            }
        }
        assert(has_room(slots, n));
        lemma_seated_bound(layer@, orders@, n as int);
    }
    assign_container_positions(&mut layer, orders);
    let ghost seats = orders@;
    proof {
        assert forall|i: int| 0 <= i < child@.len() implies #[trigger] child@[i] < n by {
            assert(rows[r + 1][i] < level.len());
        }
        assert forall|v: int| 0 <= v < n implies 2 * #[trigger] orders@[v] <= usize::MAX by {
            assert(orders@[v] <= n);
        }
        assert forall|i: int| 0 <= i < layer@.len() implies match #[trigger] layer@[i] {
            Block::Container(c, pos) => 0 <= pos && 2 * (pos + c.len()) <= usize::MAX,
            Block::Vertex(_) => true,
        } by {
            assert(layer@[i] == placed(net@.absorbed(row))[i]);
        }
    }
    let nodes = net.compute_wishes(orders, child);
    proof {
        lemma_free(net@, rows, level, r + 1, seats);
        lemma_next_row(net@, rows, level, r, row, nodes@);
        lemma_merged_positions(layer@, nodes@);
    }
    let mut next = merge(layer, &nodes);
    net.extract_q(&mut next, child);
    next.normalize();
    let ghost plain = next@;
    proof {
        assert(plain == next_row(net@, row, nodes@, child@));
        lemma_row_limit(net@, rows, level, r + 1, plain);
        lemma_product(net@.row_weight(plain) as int, limit(net@) as int);
    }
    let crossings: usize = net.transpose(orders, &mut next);
    proof {
        lemma_same_slots(net@, next@, plain);
        assert(fills(net@, rows, level, r + 1, flat(next@))) by {
            broadcast use vstd::seq_lib::group_to_multiset_ensures;

            flat(plain).lemma_multiset_has_no_duplicates();
            flat(next@).lemma_multiset_has_no_duplicates_conv();
        }
        lemma_seated_bound(next@, seats, n as int);
        lemma_crossings_bound(net@, seated(next@, seats), next@);
    }
    (next, crossings)
}

proof fn lemma_product(a: int, b: int)
    requires
        0 <= a <= b,
    ensures
        a * a <= b * b,
{
    assert(a * a <= b * b) by (nonlinear_arith)
        requires
            0 <= a <= b,
    ;
}

/// Merging keeps positions small.
pub proof fn lemma_merged_positions(row: Seq<Block>, nodes: Seq<(usize, usize)>)
    requires
        has_small_positions(row),
    ensures
        has_small_positions(merged(row, nodes)),
    decreases row.len() + nodes.len(),
{
    if row.len() == 0 || row[0] is Vertex {
        if nodes.len() > 0 {
            lemma_merged_positions(row, nodes.skip(1));
        }
    } else {
        let c = row[0]->Container_0;
        let pos = row[0]->Container_1;
        let next = crate::triskel::lanes::rest(row, 2);
        assert forall|i: int| 0 <= i < next.len() implies match #[trigger] next[i] {
            Block::Container(c, pos) => 0 <= pos && 2 * (pos + c.len()) <= usize::MAX,
            Block::Vertex(_) => true,
        } by {
            assert(next[i] == row[i + 2]);
        }
        if c.len() == 0 || nodes.len() == 0 || (nodes[0].0 > 2 * pos && nodes[0].0 >= 2 * (pos
            + c.len() - 1)) {
            lemma_merged_positions(next, nodes);
        } else if nodes[0].0 <= 2 * pos {
            lemma_merged_positions(row, nodes.skip(1));
        } else {
            let k = (nodes[0].0 - 2 * pos) / 2;
            let more = row.update(0, Block::Container(c.skip(k), pos + k));
            assert forall|i: int| 0 <= i < more.len() implies match #[trigger] more[i] {
                Block::Container(c, pos) => 0 <= pos && 2 * (pos + c.len()) <= usize::MAX,
                Block::Vertex(_) => true,
            } by {
                if i > 0 {
                    assert(more[i] == row[i]);
                }
            }
            lemma_merged_positions(more, nodes.skip(1));
        }
    }
}

/// Rows with the first one by its orders.
pub open spec fn with_sorted_first(rows: Seq<Seq<usize>>, orders: Seq<usize>) -> Seq<Seq<usize>> {
    rows.update(0, sorted_row(rows[0], orders))
}

pub proof fn lemma_with_sorted_first(
    net: Wiring,
    rows: Seq<Seq<usize>>,
    level: Seq<int>,
    orders: Seq<usize>,
)
    requires
        is_sweepable(net, rows, level),
    ensures
        is_sweepable(net, with_sorted_first(rows, orders), level),
{
    let after = with_sorted_first(rows, orders);
    lemma_sorted_row(rows[0], orders);
    assert forall|r: int, i: int| 0 <= r < after.len() && 0 <= i < after[r].len() implies (
    #[trigger] after[r][i]) < level.len() && level[after[r][i] as int] == r by {
        if r == 0 {
            assert(after[0].contains(after[0][i]));
            assert(rows[0].contains(after[0][i]));
            let k = choose|k: int| 0 <= k < rows[0].len() && rows[0][k] == after[0][i];
            assert(rows[0][k] < level.len());
        } else {
            assert(rows[r][i] < level.len());
        }
    }
    assert forall|r: int| 0 <= r < after.len() implies (#[trigger] after[r]).no_duplicates() by {
        assert(rows[r].no_duplicates());
    }
    assert forall|p: usize| #[trigger] net.ps.contains(p) implies starts_segment(
        net,
        after,
        level,
        p,
    ) by {
        assert(starts_segment(net, rows, level, p));
    }
}

/// Sweeps over all the rows once; counts the crossings on the way.
#[verifier::rlimit(40)]
fn round(
    net: &Net,
    layering: &mut Vec<Vec<usize>>,
    orders: &mut Vec<usize>,
    Ghost(level): Ghost<Seq<int>>,
) -> (crossings: usize)
    requires
        is_sweepable(net@, rows_of(old(layering)@), level),
        old(orders)@.len() == level.len(),
        are_bounded(old(orders)@),
        fits(net@, old(layering)@.len()),
    ensures
        ({
            let rows = with_sorted_first(rows_of(old(layering)@), old(orders)@);
            let end = swept(net@, rows, old(orders)@, rows.len() - 1);
            &&& rows_of(final(layering)@) == rows
            &&& final(orders)@ == seated(end.row, end.orders)
            &&& crossings == end.crossings
        }),
        is_sweepable(net@, rows_of(final(layering)@), level),
        final(orders)@.len() == level.len(),
        are_bounded(final(orders)@),
{
    let ghost before = rows_of(layering@);
    let ghost start = orders@;
    let ghost rows = with_sorted_first(before, start);
    let ghost n = level.len();
    let ghost square = limit(net@) * limit(net@);
    let ghost height = before.len();
    proof {
        assert(before.len() == layering@.len());
        lemma_with_sorted_first(net@, before, level, start);
        assert(layering@[0]@ == before[0]);
        assert forall|i: int| 0 <= i < layering@[0]@.len() implies #[trigger] layering@[0]@[i]
            < orders@.len() by {
            assert(before[0][i] < level.len());
        }
        assert(square <= height * square) by (nonlinear_arith)
            requires
                height >= 1,
                square >= 0,
        ;
    }
    let first = sort_row(&layering[0], orders);
    layering.set(0, first);
    assert(rows_of(layering@) =~= rows);
    assert(layering@[0]@ == rows[0]);
    let mut layer = Layer::of_vertices(&layering[0]);
    layer.normalize();
    proof {
        lemma_first_row(net@, rows, level);
        assert(0 * square == 0) by (nonlinear_arith);
    }
    let mut crossings: usize = 0;
    let count = layering.len();
    for r in 1..count
        invariant
            rows == rows_of(layering@),
            count == rows.len(),
            height == rows.len(),
            n == level.len(),
            is_sweepable(net@, rows, level),
            2 * n <= usize::MAX,
            square == limit(net@) * limit(net@),
            square <= height * square <= usize::MAX,
            start.len() == n,
            orders@.len() == n,
            are_bounded(orders@),
            is_normal(layer@),
            fills(net@, rows, level, r - 1, flat(layer@)),
            (Swept { row: layer@, orders: orders@, crossings: crossings as nat }) == swept(
                net@,
                rows,
                start,
                r - 1,
            ),
            crossings <= (r - 1) * square,
    {
        assert(layering@[r as int]@ == rows[r as int]);
        let (next, more) = sweep_step(
            net,
            layer,
            orders,
            &layering[r],
            Ghost(rows),
            Ghost(level),
            Ghost(r - 1),
        );
        proof {
            assert((r - 1) * square + square == r * square && r * square <= height * square)
                by (nonlinear_arith)
                requires
                    1 <= r < height,
                    square >= 0,
            ;
        }
        layer = next;
        crossings = crossings + more;
    }
    proof {
        lemma_row_limit(net@, rows, level, height - 1, layer@);
        lemma_seated_bound(layer@, orders@, n as int);
    }
    assign_container_positions(&mut layer, orders);
    crossings
}

// Search.

/// Where the search for the best orders stands: the rows from the side where the next
/// sweep starts, the last orders, and the best ones with their crossings.
pub struct Search {
    pub rows: Seq<Seq<usize>>,
    pub orders: Seq<usize>,
    pub best: Option<(nat, Seq<usize>)>,
}

/// What the k-th sweep sees: every other one goes upwards.
pub open spec fn direction(net: Wiring, k: int) -> Wiring {
    if k % 2 == 0 {
        net
    } else {
        net.flipped()
    }
}

/// The search after one more sweep.
pub open spec fn search_on(net: Wiring, state: Search) -> Search {
    let rows = with_sorted_first(state.rows, state.orders);
    let end = swept(net, rows, state.orders, rows.len() - 1);
    let orders = seated(end.row, end.orders);
    let better = match state.best {
        Some((crossings, _)) => end.crossings < crossings,
        None => true,
    };
    Search {
        rows: rows.reverse(),
        orders,
        best: if better {
            Some((end.crossings, orders))
        } else {
            state.best
        },
    }
}

/// The search after `k` sweeps in turning directions.
pub open spec fn searched(
    net: Wiring,
    rows: Seq<Seq<usize>>,
    orders: Seq<usize>,
    k: int,
) -> Search
    decreases k,
{
    if k <= 0 {
        Search { rows, orders, best: None }
    } else {
        search_on(direction(net, k - 1), searched(net, rows, orders, k - 1))
    }
}

/// The crossings that the sweep after the first `k` sweeps leaves.
pub open spec fn sweep_score(net: Wiring, rows: Seq<Seq<usize>>, orders: Seq<usize>, k: int) -> nat {
    let state = searched(net, rows, orders, k);
    let sorted = with_sorted_first(state.rows, state.orders);
    swept(direction(net, k), sorted, state.orders, sorted.len() - 1).crossings
}

/// One more sweep is the best if it leaves fewer crossings than the best before.
proof fn lemma_search_step(net: Wiring, rows: Seq<Seq<usize>>, orders: Seq<usize>, k: int)
    requires
        k >= 0,
    ensures
        searched(net, rows, orders, k + 1).best is Some,
        ({
            let score = sweep_score(net, rows, orders, k);
            let own = (score, sweep_orders(net, rows, orders, k));
            searched(net, rows, orders, k + 1).best == match searched(net, rows, orders, k).best {
                Some(best) => if score < best.0 {
                    Some(own)
                } else {
                    Some(best)
                },
                None => Some(own),
            }
        }),
{
    assert(searched(net, rows, orders, k + 1) == search_on(
        direction(net, k),
        searched(net, rows, orders, k),
    ));
}

/// The search keeps the best of all its sweeps: none of them left fewer crossings than the
/// orders that it ends with, so that more sweeps never do worse.
#[verifier::spinoff_prover]
pub proof fn law_search_keeps_the_best(
    net: Wiring,
    rows: Seq<Seq<usize>>,
    orders: Seq<usize>,
    k: int,
    j: int,
)
    requires
        0 <= j < k,
    ensures
        searched(net, rows, orders, k).best is Some,
        searched(net, rows, orders, k).best->Some_0.0 <= sweep_score(net, rows, orders, j),
    decreases k,
{
    lemma_search_step(net, rows, orders, k - 1);
    if j < k - 1 {
        law_search_keeps_the_best(net, rows, orders, k - 1, j);
    }
}

/// The orders that the sweep after the first `k` sweeps ends with.
pub open spec fn sweep_orders(
    net: Wiring,
    rows: Seq<Seq<usize>>,
    orders: Seq<usize>,
    k: int,
) -> Seq<usize> {
    searched(net, rows, orders, k + 1).orders
}

/// The search ends with the orders and the crossings of one and the same sweep.
#[verifier::spinoff_prover]
pub proof fn law_search_ends_with_a_sweep(
    net: Wiring,
    rows: Seq<Seq<usize>>,
    orders: Seq<usize>,
    k: int,
) -> (j: int)
    requires
        0 < k,
    ensures
        0 <= j < k,
        searched(net, rows, orders, k).best == Some(
            (sweep_score(net, rows, orders, j), sweep_orders(net, rows, orders, j)),
        ),
        forall|i: int|
            0 <= i < j ==> sweep_score(net, rows, orders, j) < #[trigger] sweep_score(
                net,
                rows,
                orders,
                i,
            ),
    decreases k,
{
    lemma_search_step(net, rows, orders, k - 1);
    if k > 1 {
        let j = law_search_ends_with_a_sweep(net, rows, orders, k - 1);
        if sweep_score(net, rows, orders, k - 1) < sweep_score(net, rows, orders, j) {
            assert forall|i: int| 0 <= i < k - 1 implies sweep_score(net, rows, orders, k - 1)
                < #[trigger] sweep_score(net, rows, orders, i) by {
                law_search_keeps_the_best(net, rows, orders, k - 1, i);
            }
            k - 1
        } else {
            j
        }
    } else {
        assert(searched(net, rows, orders, 0).best is None);
        0
    }
}

/// The orders found are those of one of the sweeps, no sweep leaves fewer crossings than
/// that one, and none before it as few.
pub open spec fn is_best_sweep(
    net: Wiring,
    rows: Seq<Seq<usize>>,
    orders: Seq<usize>,
    k: int,
    j: int,
    found: Seq<usize>,
) -> bool {
    &&& 0 <= j < k
    &&& found == sweep_orders(net, rows, orders, j)
    &&& forall|i: int|
        0 <= i < k ==> sweep_score(net, rows, orders, j) <= #[trigger] sweep_score(
            net,
            rows,
            orders,
            i,
        )
    &&& forall|i: int|
        0 <= i < j ==> sweep_score(net, rows, orders, j) < #[trigger] sweep_score(
            net,
            rows,
            orders,
            i,
        )
}

/// The search finds the orders of the first of its sweeps that leaves the fewest crossings.
#[verifier::spinoff_prover]
pub proof fn law_search_finds_the_best_sweep(
    net: Wiring,
    rows: Seq<Seq<usize>>,
    orders: Seq<usize>,
    k: int,
) -> (j: int)
    requires
        0 < k,
    ensures
        searched(net, rows, orders, k).best is Some,
        is_best_sweep(net, rows, orders, k, j, searched(net, rows, orders, k).best->Some_0.1),
{
    let j = law_search_ends_with_a_sweep(net, rows, orders, k);
    assert forall|i: int| 0 <= i < k implies sweep_score(net, rows, orders, j)
        <= #[trigger] sweep_score(net, rows, orders, i) by {
        law_search_keeps_the_best(net, rows, orders, k, i);
    }
    j
}

/// Levels counted from the other side.
pub open spec fn flipped_level(level: Seq<int>, height: int) -> Seq<int> {
    level.map_values(|l: int| height - 1 - l)
}

pub proof fn lemma_flipped(net: Wiring, rows: Seq<Seq<usize>>, level: Seq<int>)
    requires
        is_sweepable(net, rows, level),
    ensures
        is_sweepable(net.flipped(), rows.reverse(), flipped_level(level, rows.len() as int)),
        limit(net.flipped()) == limit(net),
{
    let back = rows.reverse();
    let height = rows.len() as int;
    let other = flipped_level(level, height);
    assert forall|r: int, i: int| 0 <= r < back.len() && 0 <= i < back[r].len() implies (
    #[trigger] back[r][i]) < other.len() && other[back[r][i] as int] == r by {
        assert(back[r] == rows[height - 1 - r]);
        assert(rows[height - 1 - r][i] < level.len());
    }
    assert forall|r: int| 0 <= r < back.len() implies (#[trigger] back[r]).no_duplicates() by {
        assert(back[r] == rows[height - 1 - r]);
    }
    assert forall|p: usize| #[trigger] net.flipped().ps.contains(p) implies starts_segment(
        net.flipped(),
        back,
        other,
        p,
    ) by {
        assert(net.qs.contains(p));
        assert(ends_segment(net, level, p));
        let q = net.back[p as int][0];
        assert(starts_segment(net, rows, level, q));
        assert(back[other[p as int]] == rows[level[p as int]]);
        assert(back[other[q as int]] == rows[level[q as int]]);
    }
    assert forall|q: usize| #[trigger] net.flipped().qs.contains(q) implies ends_segment(
        net.flipped(),
        other,
        q,
    ) by {
        assert(net.ps.contains(q));
        assert(starts_segment(net, rows, level, q));
    }
}

fn copy_orders(orders: &Vec<usize>) -> (copy: Vec<usize>)
    ensures
        copy@ == orders@,
{
    let copy = crate::triskel::lanes::copy_range(orders, 0, orders.len());
    assert(copy@ =~= orders@);
    copy
}

/// Reverses the rows.
fn turn(layering: Vec<Vec<usize>>) -> (turned: Vec<Vec<usize>>)
    ensures
        rows_of(turned@) == rows_of(layering@).reverse(),
{
    let ghost rows = rows_of(layering@);
    let mut layering = layering;
    let mut turned: Vec<Vec<usize>> = Vec::new();
    let ghost all = layering@;
    while layering.len() > 0
        invariant
            rows == rows_of(all),
            layering@.len() + turned@.len() == all.len(),
            layering@ == all.take(layering@.len() as int),
            forall|i: int|
                0 <= i < turned@.len() ==> #[trigger] turned@[i] == all[all.len() - 1 - i],
        decreases layering@.len(),
    {
        let ghost before = layering@;
        let row = layering.pop().unwrap();
        turned.push(row);
        assert(layering@ =~= all.take(layering@.len() as int));
        assert(row == all[before.len() - 1]);
    }
    assert(rows_of(turned@) =~= rows.reverse());
    turned
}

/// What a sweep counts.
pub open spec fn sweep_count(net: Wiring, state: Search) -> nat {
    let rows = with_sorted_first(state.rows, state.orders);
    swept(net, rows, state.orders, rows.len() - 1).crossings
}

/// One sweep, and the rows and the net from the other side.
fn sweep_and_turn<'a>(
    net: Net<'a>,
    layering: Vec<Vec<usize>>,
    orders: &mut Vec<usize>,
    Ghost(level): Ghost<Seq<int>>,
    Ghost(best): Ghost<Option<(nat, Seq<usize>)>>,
) -> (res: (Net<'a>, Vec<Vec<usize>>, usize))
    requires
        is_sweepable(net@, rows_of(layering@), level),
        old(orders)@.len() == level.len(),
        are_bounded(old(orders)@),
        fits(net@, layering@.len()),
    ensures
        ({
            let before = Search { rows: rows_of(layering@), orders: old(orders)@, best };
            &&& res.0@ == net@.flipped()
            &&& rows_of(res.1@) == search_on(net@, before).rows
            &&& final(orders)@ == search_on(net@, before).orders
            &&& res.2 == sweep_count(net@, before)
        }),
        res.1@.len() == layering@.len(),
        is_sweepable(res.0@, rows_of(res.1@), flipped_level(level, layering@.len() as int)),
        final(orders)@.len() == level.len(),
        are_bounded(final(orders)@),
        fits(res.0@, layering@.len()),
{
    let mut layering = layering;
    let ghost height = rows_of(layering@).len();
    let crossings: usize = round(&net, &mut layering, orders, Ghost(level));
    proof {
        assert(rows_of(layering@).len() == height);
        lemma_flipped(net@, rows_of(layering@), level);
    }
    let turned = turn(layering);
    assert(rows_of(turned@).len() == turned@.len());
    let other = Net {
        back: net.ahead,
        ahead: net.back,
        pvertices: net.qvertices,
        qvertices: net.pvertices,
    };
    assert(other@ == net@.flipped());
    (other, turned, crossings)
}

/// Sweeps down and up in turn, and keeps the orders with the fewest crossings. The first
/// of them wins a tie.
#[verifier::rlimit(60)]
#[verifier::spinoff_prover]
pub(crate) fn search(
    net: Net,
    layering: Vec<Vec<usize>>,
    orders: Vec<usize>,
    rounds: usize,
    Ghost(level): Ghost<Seq<int>>,
) -> (best: Vec<usize>)
    requires
        is_sweepable(net@, rows_of(layering@), level),
        orders@.len() == level.len(),
        are_bounded(orders@),
        fits(net@, layering@.len()),
        rounds > 0,
    ensures
        searched(net@, rows_of(layering@), orders@, rounds as int).best matches Some((_, found))
            && best@ == found,
        exists|j: int| #[trigger]
            is_best_sweep(net@, rows_of(layering@), orders@, rounds as int, j, best@),
        best@.len() == level.len(),
        are_bounded(best@),
{
    let ghost rows = rows_of(layering@);
    let ghost start = orders@;
    let ghost height = rows.len();
    let ghost whole = net@;
    let ghost mut now = level;
    let mut net = net;
    let mut layering = layering;
    let mut orders = orders;
    let mut best_cross: usize = 0;
    let mut best_order: Vec<usize> = Vec::new();
    assert(height == layering@.len());
    for k in 0..rounds
        invariant
            height == rows.len(),
            net@ == direction(whole, k as int),
            rows_of(layering@) == searched(whole, rows, start, k as int).rows,
            layering@.len() == height,
            orders@ == searched(whole, rows, start, k as int).orders,
            is_sweepable(net@, rows_of(layering@), now),
            now.len() == level.len(),
            orders@.len() == level.len(),
            are_bounded(orders@),
            fits(net@, height),
            match searched(whole, rows, start, k as int).best {
                Some((crossings, found)) => k > 0 && best_cross == crossings && best_order@ == found
                    && found.len() == level.len() && are_bounded(found),
                None => k == 0,
            },
    {
        let ghost state = searched(whole, rows, start, k as int);
        let ghost before = net@;
        let (other, turned, cross) = sweep_and_turn(
            net,
            layering,
            &mut orders,
            Ghost(now),
            Ghost(state.best),
        );
        if k == 0 || cross < best_cross {
            best_cross = cross;
            best_order = copy_orders(&orders);
        }
        layering = turned;
        net = other;
        proof {
            assert(search_on(before, state) == searched(whole, rows, start, k + 1));
            assert(cross == sweep_count(before, state));
            now = flipped_level(now, height as int);
            assert(net@ == direction(whole, k + 1));
        }
    }
    proof {
        let j = law_search_finds_the_best_sweep(whole, rows, start, rounds as int);
        assert(is_best_sweep(whole, rows, start, rounds as int, j, best_order@));
    }
    best_order
}

} // verus!
