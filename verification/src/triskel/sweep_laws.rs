//! What holds of the sweeps that order the vertices of rows.
use crate::triskel::crossing::{
    lemma_first_gain, lemma_same_slots, lemma_swapped, same_slots, swapped,
};
use crate::triskel::lanes::{
    flat, is_normal, lemma_absorbed, lemma_placed, lemma_seated, lemma_seats, placed, seated,
    seats, slots_of, Block, Slot, Wiring,
};
use crate::sorting::sorted_pairs;
use crate::triskel::sweep::{
    belongs_absorbed, direction, fills, flipped_level, is_sweepable, lemma_absorbed_fills,
    lemma_first_row, lemma_flipped, lemma_free, lemma_next_row, lemma_row_limit,
    lemma_with_sorted_first, next_row, searched, sweep_on, sweep_orders, sweep_score, swept,
    with_sorted_first,
};
use vstd::prelude::*;

verus! {

/// A vertex of a row is seated at its place among the elements.
pub proof fn law_vertices_sit_at_their_places(row: Seq<Block>, orders: Seq<usize>, k: int, id: usize)
    requires
        flat(row).no_duplicates(),
        flat(row).len() <= usize::MAX,
        0 <= k < flat(row).len(),
        flat(row)[k] == Slot::Vertex(id),
        id < orders.len(),
    ensures
        seated(row, orders).len() == orders.len(),
        seated(row, orders)[id as int] == k,
    decreases row.len(),
{
    let shorter = row.drop_last();
    let before = flat(shorter);
    assert(flat(row) == before + slots_of(row.last()));
    lemma_seated_len(shorter, orders);
    if k < before.len() {
        assert(before[k] == flat(row)[k]);
        assert(before.no_duplicates()) by {
            assert forall|i: int, j: int|
                0 <= i < before.len() && 0 <= j < before.len() && i != j implies before[i]
                != before[j] by {
                assert(flat(row)[i] == before[i] && flat(row)[j] == before[j]);
            }
        }
        law_vertices_sit_at_their_places(shorter, orders, k, id);
        if row.last() == Block::Vertex(id) {
            assert(slots_of(row.last())[0] == Slot::Vertex(id));
            assert(flat(row)[before.len() as int] == Slot::Vertex(id));
        }
    } else {
        assert(slots_of(row.last())[k - before.len()] == Slot::Vertex(id));
        assert(row.last() == Block::Vertex(id));
    }
}

proof fn lemma_seated_len(row: Seq<Block>, orders: Seq<usize>)
    ensures
        seated(row, orders).len() == orders.len(),
    decreases row.len(),
{
    if row.len() > 0 {
        lemma_seated_len(row.drop_last(), orders);
    }
}

/// Swaps keep the elements of a row.
proof fn lemma_settled(net: Wiring, orders: Seq<usize>, row: Seq<Block>)
    requires
        is_normal(row),
    ensures
        same_slots(net.settled(orders, row), row),
        is_normal(net.settled(orders, row)),
    decreases net.score(orders, row),
{
    if exists|k: int| net.is_first_gain(orders, row, k) {
        let k = choose|k: int| net.is_first_gain(orders, row, k);
        lemma_swapped(row, k);
        lemma_settled(net, orders, swapped(row, k));
    }
}

/// The rows of a sweep hold the vertices and segments that belong there.
pub proof fn lemma_swept(net: Wiring, rows: Seq<Seq<usize>>, level: Seq<int>, orders: Seq<usize>, r: int)
    requires
        is_sweepable(net, rows, level),
        orders.len() == level.len(),
        0 <= r < rows.len(),
    ensures
        ({
            let state = swept(net, rows, orders, r);
            &&& is_normal(state.row)
            &&& fills(net, rows, level, r, flat(state.row))
            &&& state.orders.len() == level.len()
        }),
    decreases r,
{
    if r == 0 {
        lemma_first_row(net, rows, level);
    } else {
        let state = swept(net, rows, orders, r - 1);
        lemma_swept(net, rows, level, orders, r - 1);
        let seats = seated(net.absorbed(state.row), state.orders);
        lemma_seated_len(net.absorbed(state.row), state.orders);
        let nodes = sorted_pairs(net.wishes(seats, rows[r]));
        lemma_free(net, rows, level, r, seats);
        lemma_next_row(net, rows, level, r - 1, state.row, nodes);
        let plain = next_row(net, state.row, nodes, rows[r]);
        lemma_placed(plain);
        lemma_settled(net, seats, placed(plain));
        let row = net.settled(seats, placed(plain));
        lemma_same_slots(net, row, placed(plain));
        assert(fills(net, rows, level, r, flat(row))) by {
            broadcast use vstd::seq_lib::group_to_multiset_ensures;

            flat(plain).lemma_multiset_has_no_duplicates();
            flat(row).lemma_multiset_has_no_duplicates_conv();
        }
        lemma_seated_len(row, seats);
    }
}

/// Neighbours stand in rows further back, or further ahead.
pub open spec fn leads_on(net: Wiring, level: Seq<int>) -> bool {
    &&& forall|v: int, i: int|
        0 <= v < level.len() && 0 <= i < net.back[v].len() ==> level[#[trigger] net.back[v][i] as int]
            < level[v]
    &&& forall|v: int, i: int|
        0 <= v < level.len() && 0 <= i < net.ahead[v].len()
            ==> level[#[trigger] net.ahead[v][i] as int] > level[v]
}

/// A sweep does not move the vertices of rows that it has left.
proof fn lemma_left_rows_stay(net: Wiring, rows: Seq<Seq<usize>>, level: Seq<int>, orders: Seq<usize>, r: int, v: usize)
    requires
        is_sweepable(net, rows, level),
        2 * level.len() <= usize::MAX,
        orders.len() == level.len(),
        1 <= r < rows.len(),
        v < level.len(),
        level[v as int] <= r,
    ensures
        ({
            let state = swept(net, rows, orders, r);
            let seats = seated(net.absorbed(state.row), state.orders);
            &&& seats.len() == level.len()
            &&& seats[v as int] == state.orders[v as int]
            &&& seated(state.row, state.orders)[v as int] == state.orders[v as int]
            &&& r + 1 < rows.len() ==> swept(net, rows, orders, r + 1).orders[v as int]
                == state.orders[v as int]
        }),
{
    let state = swept(net, rows, orders, r);
    let before = swept(net, rows, orders, r - 1);
    let row = state.row;
    lemma_swept(net, rows, level, orders, r);
    lemma_swept(net, rows, level, orders, r - 1);
    lemma_row_limit(net, rows, level, r, row);
    lemma_absorbed(net, row);
    lemma_absorbed_fills(net, rows, level, r, row);
    let absorbed = net.absorbed(row);
    let inner = seated(net.absorbed(before.row), before.orders);
    lemma_seated_len(net.absorbed(before.row), before.orders);
    lemma_seated_len(absorbed, state.orders);
    assert(state.orders == seated(row, inner));
    let seats = seated(absorbed, state.orders);
    lemma_seats(row, v);
    lemma_seats(absorbed, v);
    if flat(row).contains(Slot::Vertex(v)) {
        let k = choose|k: int| 0 <= k < flat(row).len() && flat(row)[k] == Slot::Vertex(v);
        law_vertices_sit_at_their_places(row, inner, k, v);
        law_vertices_sit_at_their_places(row, state.orders, k, v);
        if net.ps.contains(v) {
            assert(!flat(absorbed).contains(Slot::Vertex(v)));
            lemma_seated(absorbed, state.orders, state.orders);
        } else {
            assert(flat(absorbed)[k] == net.absorbed_slot(flat(row)[k]));
            law_vertices_sit_at_their_places(absorbed, state.orders, k, v);
        }
    } else {
        lemma_seated(row, state.orders, state.orders);
        assert(!flat(absorbed).contains(Slot::Vertex(v))) by {
            if flat(absorbed).contains(Slot::Vertex(v)) {
                assert(belongs_absorbed(net, rows, level, r, Slot::Vertex(v)));
                assert(flat(row).contains(Slot::Vertex(v)));
            }
        }
        lemma_seated(absorbed, state.orders, state.orders);
    }
    if r + 1 < rows.len() {
        lemma_swept(net, rows, level, orders, r + 1);
        let next = swept(net, rows, orders, r + 1);
        lemma_seats(next.row, v);
        assert(!flat(next.row).contains(Slot::Vertex(v))) by {
            if flat(next.row).contains(Slot::Vertex(v)) {
                assert(rows[r + 1].contains(v));
                let i = rows[r + 1].index_of(v);
                assert(level[rows[r + 1][i] as int] == r + 1);
            }
        }
        lemma_seated(next.row, seats, seats);
        assert(next.orders == seated(next.row, seats));
    }
}

/// The orders that a sweep over all the rows ends with.
pub open spec fn end_orders(net: Wiring, rows: Seq<Seq<usize>>, orders: Seq<usize>) -> Seq<usize> {
    let end = swept(net, rows, orders, rows.len() - 1);
    seated(end.row, end.orders)
}

/// What a vertex got in its row it keeps to the end of the sweep.
proof fn lemma_kept_to_the_end(net: Wiring, rows: Seq<Seq<usize>>, level: Seq<int>, orders: Seq<usize>, r: int, v: usize)
    requires
        is_sweepable(net, rows, level),
        2 * level.len() <= usize::MAX,
        orders.len() == level.len(),
        1 <= r < rows.len(),
        v < level.len(),
        level[v as int] <= r,
    ensures
        end_orders(net, rows, orders)[v as int] == swept(net, rows, orders, r).orders[v as int],
    decreases rows.len() - r,
{
    lemma_left_rows_stay(net, rows, level, orders, r, v);
    if r + 1 < rows.len() {
        lemma_kept_to_the_end(net, rows, level, orders, r + 1, v);
    }
}

/// The crossings of the rows of a sweep up to row `r`, all counted with the given orders.
pub open spec fn crossings_up_to(
    net: Wiring,
    rows: Seq<Seq<usize>>,
    orders: Seq<usize>,
    last: Seq<usize>,
    r: int,
) -> nat
    decreases r,
{
    if r <= 0 {
        0
    } else {
        crossings_up_to(net, rows, orders, last, r - 1) + net.crossings(
            last,
            swept(net, rows, orders, r).row,
        )
    }
}

/// Crossings depend on the orders of the vertices that lead into a row alone.
proof fn lemma_crossings_alike(net: Wiring, a: Seq<usize>, b: Seq<usize>, row: Seq<Block>)
    requires
        forall|i: int, k: int|
            0 <= i < row.len() && row[i] is Vertex && 0 <= k
                < net.back[row[i]->Vertex_0 as int].len()
                ==> a[#[trigger] net.back[row[i]->Vertex_0 as int][k] as int]
                == b[net.back[row[i]->Vertex_0 as int][k] as int],
    ensures
        net.crossings(a, row) == net.crossings(b, row),
        net.lines(a, row) == net.lines(b, row),
    decreases row.len(),
{
    if row.len() > 0 {
        let shorter = row.drop_last();
        assert forall|i: int, k: int|
            0 <= i < shorter.len() && shorter[i] is Vertex && 0 <= k
                < net.back[shorter[i]->Vertex_0 as int].len() implies a[#[trigger] net.back[shorter[i]->Vertex_0 as int][k] as int]
            == b[net.back[shorter[i]->Vertex_0 as int][k] as int] by {
            assert(row[i] == shorter[i]);
            assert(a[net.back[row[i]->Vertex_0 as int][k] as int]
                == b[net.back[row[i]->Vertex_0 as int][k] as int]);
        }
        lemma_crossings_alike(net, a, b, shorter);
        let last = row.len() - 1;
        assert(net.lines_of(a, row.last()) =~= net.lines_of(b, row.last())) by {
            if row[last] is Vertex {
                let id = row[last]->Vertex_0 as int;
                assert forall|k: int| 0 <= k < net.back[id].len() implies net.lines_of(
                    a,
                    row.last(),
                )[k] == net.lines_of(b, row.last())[k] by {
                    assert(a[net.back[row[last]->Vertex_0 as int][k] as int]
                        == b[net.back[row[last]->Vertex_0 as int][k] as int]);
                }
            }
        }
    }
}

/// A sweep counts the crossings of the very orders that it ends with.
pub proof fn law_sweep_counts_its_own_orders(
    net: Wiring,
    rows: Seq<Seq<usize>>,
    level: Seq<int>,
    orders: Seq<usize>,
)
    requires
        is_sweepable(net, rows, level),
        leads_on(net, level),
        2 * level.len() <= usize::MAX,
        orders.len() == level.len(),
    ensures
        swept(net, rows, orders, rows.len() - 1).crossings == crossings_up_to(
            net,
            rows,
            orders,
            end_orders(net, rows, orders),
            rows.len() - 1,
        ),
{
    lemma_counts(net, rows, level, orders, rows.len() - 1);
}

proof fn lemma_counts(
    net: Wiring,
    rows: Seq<Seq<usize>>,
    level: Seq<int>,
    orders: Seq<usize>,
    r: int,
)
    requires
        is_sweepable(net, rows, level),
        leads_on(net, level),
        2 * level.len() <= usize::MAX,
        orders.len() == level.len(),
        0 <= r < rows.len(),
    ensures
        swept(net, rows, orders, r).crossings == crossings_up_to(
            net,
            rows,
            orders,
            end_orders(net, rows, orders),
            r,
        ),
    decreases r,
{
    if r > 0 {
        lemma_counts(net, rows, level, orders, r - 1);
        lemma_swept(net, rows, level, orders, r);
        let state = swept(net, rows, orders, r);
        let last = end_orders(net, rows, orders);
        let row = state.row;
        assert forall|i: int, k: int|
            0 <= i < row.len() && row[i] is Vertex && 0 <= k
                < net.back[row[i]->Vertex_0 as int].len() implies last[#[trigger] net.back[row[i]->Vertex_0 as int][k] as int]
            == state.orders[net.back[row[i]->Vertex_0 as int][k] as int] by {
            let id = row[i]->Vertex_0;
            assert(seats(row, id)) by {
                assert(row[i] == Block::Vertex(id));
            }
            lemma_seats(row, id);
            assert(rows[r].contains(id));
            let j = choose|j: int| 0 <= j < rows[r].len() && rows[r][j] == id;
            assert(level[rows[r][j] as int] == r);
            let u = net.back[id as int][k];
            assert(level[u as int] < level[id as int]);
            lemma_kept_to_the_end(net, rows, level, orders, r, u);
        }
        lemma_crossings_alike(net, last, state.orders, row);
        assert(state == sweep_on(net, swept(net, rows, orders, r - 1), rows[r]));
    }
}

/// The levels as the k-th sweep sees them.
pub open spec fn levels_at(level: Seq<int>, height: int, k: int) -> Seq<int> {
    if k % 2 == 0 {
        level
    } else {
        flipped_level(level, height)
    }
}

/// Each sweep can go over what the one before leaves.
proof fn lemma_searched(net: Wiring, rows: Seq<Seq<usize>>, level: Seq<int>, orders: Seq<usize>, k: int)
    requires
        is_sweepable(net, rows, level),
        leads_on(net, level),
        orders.len() == level.len(),
        0 <= k,
    ensures
        ({
            let state = searched(net, rows, orders, k);
            let now = levels_at(level, rows.len() as int, k);
            &&& state.rows.len() == rows.len()
            &&& is_sweepable(direction(net, k), state.rows, now)
            &&& leads_on(direction(net, k), now)
            &&& now.len() == level.len()
            &&& state.orders.len() == level.len()
        }),
    decreases k,
{
    let height = rows.len() as int;
    if k > 0 {
        lemma_searched(net, rows, level, orders, k - 1);
        let before = searched(net, rows, orders, k - 1);
        let now = levels_at(level, height, k - 1);
        let dir = direction(net, k - 1);
        lemma_with_sorted_first(dir, before.rows, now, before.orders);
        let sorted = with_sorted_first(before.rows, before.orders);
        lemma_flipped(dir, sorted, now);
        lemma_swept(dir, sorted, now, before.orders, height - 1);
        let end = swept(dir, sorted, before.orders, height - 1);
        lemma_seated_len(end.row, end.orders);
        assert(direction(net, k) == dir.flipped());
        assert(levels_at(level, height, k) =~= flipped_level(now, height));
        let next = levels_at(level, height, k);
        assert forall|v: int, i: int|
            0 <= v < next.len() && 0 <= i < dir.flipped().back[v].len() implies next[#[trigger] dir.flipped().back[v][i] as int]
            < next[v] by {
            assert(now[dir.ahead[v][i] as int] > now[v]);
            assert(dir.ahead[v][i] < now.len());
        }
        assert forall|v: int, i: int|
            0 <= v < next.len() && 0 <= i < dir.flipped().ahead[v].len() implies next[#[trigger] dir.flipped().ahead[v][i] as int]
            > next[v] by {
            assert(now[dir.back[v][i] as int] < now[v]);
            assert(dir.back[v][i] < now.len());
        }
    }
}

/// The score of each sweep of a search is the number of crossings between the rows of that
/// sweep, counted with the very orders that the sweep ends with.
pub proof fn law_scores_count_the_orders_found(
    net: Wiring,
    rows: Seq<Seq<usize>>,
    level: Seq<int>,
    orders: Seq<usize>,
    k: int,
)
    requires
        is_sweepable(net, rows, level),
        leads_on(net, level),
        2 * level.len() <= usize::MAX,
        orders.len() == level.len(),
        0 <= k,
    ensures
        ({
            let state = searched(net, rows, orders, k);
            let sorted = with_sorted_first(state.rows, state.orders);
            sweep_score(net, rows, orders, k) == crossings_up_to(
                direction(net, k),
                sorted,
                state.orders,
                sweep_orders(net, rows, orders, k),
                rows.len() - 1,
            )
        }),
{
    lemma_searched(net, rows, level, orders, k);
    let state = searched(net, rows, orders, k);
    let now = levels_at(level, rows.len() as int, k);
    let dir = direction(net, k);
    lemma_with_sorted_first(dir, state.rows, now, state.orders);
    let sorted = with_sorted_first(state.rows, state.orders);
    law_sweep_counts_its_own_orders(dir, sorted, now, state.orders);
    assert(searched(net, rows, orders, k + 1) == crate::triskel::sweep::search_on(dir, state));
}

/// Every sweep goes over the same rows, from the top or, every other time, from the bottom.
pub proof fn law_sweeps_turn(net: Wiring, rows: Seq<Seq<usize>>, orders: Seq<usize>, k: int)
    requires
        0 <= k,
        rows.len() > 0,
        forall|r: int| 0 <= r < rows.len() ==> (#[trigger] rows[r]).no_duplicates(),
    ensures
        searched(net, rows, orders, k).rows.len() == rows.len(),
        forall|r: int|
            0 <= r < rows.len() ==> are_alike(
                #[trigger] searched(net, rows, orders, k).rows[r],
                rows[if k % 2 == 0 {
                    r
                } else {
                    rows.len() - 1 - r
                }],
            ),
    decreases k,
{
    if k > 0 {
        let before = searched(net, rows, orders, k - 1);
        let after = searched(net, rows, orders, k);
        law_sweeps_turn(net, rows, orders, k - 1);
        assert forall|r: int| 0 <= r < rows.len() implies are_alike(
            #[trigger] after.rows[r],
            rows[if k % 2 == 0 {
                r
            } else {
                rows.len() - 1 - r
            }],
        ) by {
            let old_place = rows.len() - 1 - r;
            assert(are_alike(
                before.rows[old_place],
                rows[if (k - 1) % 2 == 0 {
                    old_place
                } else {
                    rows.len() - 1 - old_place
                }],
            ));
            crate::triskel::sweep::lemma_sorted_row(before.rows[old_place], before.orders);
            assert(after.rows[r] == with_sorted_first(before.rows, before.orders)[old_place]);
        }
    }
}

/// Two rows hold the same vertices, each once.
pub open spec fn are_alike(a: Seq<usize>, b: Seq<usize>) -> bool {
    &&& a.no_duplicates()
    &&& a.len() == b.len()
    &&& forall|v: usize| #[trigger] a.contains(v) <==> b.contains(v)
}

/// Swaps go on until none removes a crossing.
proof fn lemma_ends_settled(net: Wiring, orders: Seq<usize>, row: Seq<Block>)
    ensures
        net.is_settled(orders, net.settled(orders, row)),
        net.score(orders, net.settled(orders, row)) <= net.score(orders, row),
    decreases net.score(orders, row),
{
    if exists|k: int| net.is_first_gain(orders, row, k) {
        let k = choose|k: int| net.is_first_gain(orders, row, k);
        lemma_ends_settled(net, orders, swapped(row, k));
    } else {
        assert forall|j: int| !#[trigger] net.gains(orders, row, j) by {
            if net.gains(orders, row, j) {
                lemma_first_gain(net, orders, row, j);
            }
        }
    }
}

/// In each row that a sweep leaves, no swap of neighbours removes a crossing.
pub proof fn law_swept_rows_are_settled(net: Wiring, rows: Seq<Seq<usize>>, orders: Seq<usize>, r: int)
    requires
        1 <= r,
    ensures
        ({
            let before = swept(net, rows, orders, r - 1);
            let seats = seated(net.absorbed(before.row), before.orders);
            net.is_settled(seats, swept(net, rows, orders, r).row)
        }),
{
    let before = swept(net, rows, orders, r - 1);
    let seats = seated(net.absorbed(before.row), before.orders);
    let nodes = sorted_pairs(net.wishes(seats, rows[r]));
    lemma_ends_settled(net, seats, placed(next_row(net, before.row, nodes, rows[r])));
}

} // verus!
