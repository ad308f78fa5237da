//! What the crossings between two rows are.
use crate::triskel::crossing::{content, lemma_content, meetings, right_of, swapped, Line};
use crate::triskel::lanes::{
    flat, lemma_flat_join, lemma_flat_one, lemma_normalized, lemma_placed, normalized, slots_of,
    Block, Slot, Wiring,
};
use vstd::prelude::*;

verus! {

/// Where a single line into a row arrives and starts: the place of its block, and its
/// position in the row before.
pub struct End {
    pub block: int,
    pub pos: int,
}

/// Where the a-th line into a block starts. All the lanes of a container start where it does.
pub open spec fn start_of_line(net: Wiring, orders: Seq<usize>, block: Block, a: int) -> int {
    match block {
        Block::Vertex(id) => orders[net.back[id as int][a] as int] as int,
        Block::Container(_, pos) => pos,
    }
}

/// The lines into a row, one by one.
pub open spec fn ends(net: Wiring, orders: Seq<usize>, row: Seq<Block>) -> Seq<End>
    decreases row.len(),
{
    if row.len() == 0 {
        Seq::empty()
    } else {
        ends(net, orders, row.drop_last()) + Seq::new(
            net.block_weight(row.last()),
            |a: int|
                End { block: row.len() - 1, pos: start_of_line(net, orders, row.last(), a) },
        )
    }
}

/// The second line arrives right of the first and starts left of it.
pub open spec fn cross(list: Seq<End>, s: int, t: int) -> bool {
    list[s].block < list[t].block && list[s].pos > list[t].pos
}

/// The pairs of lines that cross.
pub open spec fn crossing_pairs(list: Seq<End>) -> Set<(int, int)> {
    Set::new(
        |pair: (int, int)|
            0 <= pair.0 < list.len() && 0 <= pair.1 < list.len() && cross(list, pair.0, pair.1),
    )
}

/// The crossing pairs among the first `t` lines, and those of the first `s` lines with line
/// `t`.
spec fn pairs_up_to(list: Seq<End>, t: int, s: int) -> Set<(int, int)> {
    Set::new(
        |pair: (int, int)|
            0 <= pair.0 && 0 <= pair.1 && (pair.0 < t && pair.1 < t || pair.0 < s && pair.1 == t)
                && cross(list, pair.0, pair.1),
    )
}

/// How many of the first `s` lines line `t` crosses.
spec fn crossed_by(list: Seq<End>, t: int, s: int) -> nat
    decreases s,
{
    if s <= 0 {
        0
    } else {
        crossed_by(list, t, s - 1) + if cross(list, s - 1, t) {
            1nat
        } else {
            0
        }
    }
}

/// How often the first `t` lines cross.
spec fn crossed(list: Seq<End>, t: int) -> nat
    decreases t,
{
    if t <= 0 {
        0
    } else {
        crossed(list, t - 1) + crossed_by(list, t - 1, t - 1)
    }
}

spec fn ascends(list: Seq<End>) -> bool {
    forall|s: int, t: int|
        0 <= s <= t < list.len() ==> (#[trigger] list[s]).block <= (#[trigger] list[t]).block
}

proof fn lemma_pairs(list: Seq<End>, t: int, s: int)
    requires
        ascends(list),
        0 <= s <= t <= list.len(),
        t < list.len() || s == 0,
    ensures
        pairs_up_to(list, t, s).finite(),
        pairs_up_to(list, t, s).len() == crossed(list, t) + crossed_by(list, t, s),
    decreases t, s,
{
    let all = pairs_up_to(list, t, s);
    if s > 0 {
        lemma_pairs(list, t, s - 1);
        let fewer = pairs_up_to(list, t, s - 1);
        if cross(list, s - 1, t) {
            assert(all =~= fewer.insert((s - 1, t)));
            assert(!fewer.contains((s - 1, t)));
        } else {
            assert(all =~= fewer);
        }
    } else if t > 0 {
        lemma_pairs(list, t - 1, t - 1);
        let fewer = pairs_up_to(list, t - 1, t - 1);
        assert forall|pair: (int, int)| all.contains(pair) implies fewer.contains(pair) by {
            if pair.0 == t - 1 {
                assert(list[pair.1].block <= list[t - 1].block);
            }
        }
        assert(all =~= fewer);
    } else {
        assert(all =~= Set::<(int, int)>::empty());
    }
}

/// How many of the lines start right of a position.
spec fn starts_right_of(list: Seq<End>, pos: int, s: int) -> nat
    decreases s,
{
    if s <= 0 {
        0
    } else {
        starts_right_of(list, pos, s - 1) + if list[s - 1].pos > pos {
            1nat
        } else {
            0
        }
    }
}

proof fn lemma_ends(net: Wiring, orders: Seq<usize>, row: Seq<Block>)
    ensures
        ascends(ends(net, orders, row)),
        forall|s: int|
            0 <= s < ends(net, orders, row).len() ==> 0 <= (#[trigger] ends(net, orders, row)[s]).block
                < row.len(),
    decreases row.len(),
{
    if row.len() > 0 {
        let shorter = row.drop_last();
        lemma_ends(net, orders, shorter);
        let (a, b) = (ends(net, orders, shorter), ends(net, orders, row));
        assert forall|s: int| 0 <= s < b.len() implies 0 <= (#[trigger] b[s]).block < row.len() by {
            if s < a.len() {
                assert(b[s] == a[s]);
            }
        }
        assert forall|s: int, t: int| 0 <= s <= t < b.len() implies (#[trigger] b[s]).block <= (
        #[trigger] b[t]).block by {
            if t < a.len() {
                assert(b[s] == a[s] && b[t] == a[t]);
            }
        }
    }
}

proof fn lemma_starts_prefix(a: Seq<End>, b: Seq<End>, pos: int, s: int)
    requires
        0 <= s <= a.len(),
        s <= b.len(),
        forall|i: int| 0 <= i < s ==> #[trigger] a[i] == b[i],
    ensures
        starts_right_of(a, pos, s) == starts_right_of(b, pos, s),
    decreases s,
{
    if s > 0 {
        lemma_starts_prefix(a, b, pos, s - 1);
        assert(a[s - 1] == b[s - 1]);
    }
}

proof fn lemma_right_of_join(a: Seq<Line>, b: Seq<Line>, pos: int)
    ensures
        right_of(a + b, pos) == right_of(a, pos) + right_of(b, pos),
    decreases b.len(),
{
    if b.len() == 0 {
        assert(a + b =~= a);
    } else {
        lemma_right_of_join(a, b.drop_last(), pos);
        assert((a + b).drop_last() =~= a + b.drop_last());
    }
}

/// The lines into a block one by one, and in bundles.
proof fn lemma_block_right_of(net: Wiring, orders: Seq<usize>, row: Seq<Block>, pos: int, k: int)
    requires
        row.len() > 0,
        0 <= k <= net.block_weight(row.last()),
    ensures
        ({
            let n = ends(net, orders, row.drop_last()).len() as int;
            let list = ends(net, orders, row);
            let more = (starts_right_of(list, pos, n + k) - starts_right_of(list, pos, n)) as int;
            match row.last() {
                Block::Vertex(_) => more == right_of(
                    net.lines_of(orders, row.last()).take(k),
                    pos,
                ),
                Block::Container(_, at) => more == if at > pos {
                    k
                } else {
                    0
                },
            }
        }),
    decreases k,
{
    let lines = net.lines_of(orders, row.last());
    let n = ends(net, orders, row.drop_last()).len() as int;
    let list = ends(net, orders, row);
    if k > 0 {
        lemma_block_right_of(net, orders, row, pos, k - 1);
        assert(list[n + k - 1].pos == start_of_line(net, orders, row.last(), k - 1));
        if row.last() is Vertex {
            assert(lines.take(k).drop_last() =~= lines.take(k - 1));
            assert(lines.take(k).last() == lines[k - 1]);
        }
    } else {
        if row.last() is Vertex {
            assert(lines.take(0) =~= Seq::empty());
        }
    }
}

proof fn lemma_starts(net: Wiring, orders: Seq<usize>, row: Seq<Block>, pos: int)
    ensures
        starts_right_of(ends(net, orders, row), pos, ends(net, orders, row).len() as int)
            == right_of(net.lines(orders, row), pos),
    decreases row.len(),
{
    if row.len() > 0 {
        let shorter = row.drop_last();
        let block = row.last();
        lemma_starts(net, orders, shorter, pos);
        let list = ends(net, orders, row);
        let n = ends(net, orders, shorter).len() as int;
        lemma_starts_prefix(list, ends(net, orders, shorter), pos, n);
        let w = net.block_weight(block) as int;
        lemma_block_right_of(net, orders, row, pos, w);
        lemma_right_of_join(net.lines(orders, shorter), net.lines_of(orders, block), pos);
        let lines = net.lines_of(orders, block);
        match block {
            Block::Vertex(_) => {
                assert(lines.take(w) =~= lines);
            },
            Block::Container(c, _) => {
                if c.len() > 0 {
                    assert(lines.drop_last() =~= Seq::empty());
                    assert(right_of(lines.drop_last(), pos) == 0);
                }
            },
        }
    }
}

/// A line crosses those of earlier blocks that start right of it.
proof fn lemma_crossed_by(list: Seq<End>, n: int, t: int, s: int)
    requires
        0 <= n <= t < list.len(),
        0 <= s <= t,
        forall|i: int| 0 <= i < n ==> (#[trigger] list[i]).block < list[t].block,
        forall|i: int| n <= i <= t ==> (#[trigger] list[i]).block == list[t].block,
    ensures
        crossed_by(list, t, s) == starts_right_of(
            list,
            list[t].pos,
            if s < n {
                s
            } else {
                n
            },
        ),
    decreases s,
{
    if s > 0 {
        lemma_crossed_by(list, n, t, s - 1);
        if s - 1 < n {
            assert(list[s - 1].block < list[t].block);
        } else {
            assert(list[s - 1].block == list[t].block);
        }
    }
}

proof fn lemma_crossed_prefix(a: Seq<End>, b: Seq<End>, t: int, s: int)
    requires
        0 <= s <= t <= a.len(),
        t <= b.len(),
        forall|i: int| 0 <= i < t ==> #[trigger] a[i] == b[i],
    ensures
        crossed(a, t) == crossed(b, t),
        t < a.len() && t < b.len() && a[t] == b[t] ==> crossed_by(a, t, s) == crossed_by(b, t, s),
    decreases t, s,
{
    if s > 0 {
        lemma_crossed_prefix(a, b, t, s - 1);
        assert(a[s - 1] == b[s - 1]);
    } else if t > 0 {
        assert(a[t - 1] == b[t - 1]);
        lemma_crossed_prefix(a, b, t - 1, t - 1);
    }
}

/// The lines into the last block of a row cross the others as often as counted.
proof fn lemma_last_block(net: Wiring, orders: Seq<usize>, row: Seq<Block>, k: int)
    requires
        row.len() > 0,
        0 <= k <= net.block_weight(row.last()),
    ensures
        ({
            let n = ends(net, orders, row.drop_last()).len() as int;
            let list = ends(net, orders, row);
            let active = net.lines(orders, row.drop_last());
            let more = crossed(list, n + k) - crossed(list, n);
            match row.last() {
                Block::Vertex(_) => more == meetings(
                    active,
                    net.lines_of(orders, row.last()).take(k),
                ),
                Block::Container(_, at) => more == right_of(active, at) * k,
            }
        }),
    decreases k,
{
    let lines = net.lines_of(orders, row.last());
    let shorter = row.drop_last();
    let n = ends(net, orders, shorter).len() as int;
    let list = ends(net, orders, row);
    let active = net.lines(orders, shorter);
    if k > 0 {
        let t = n + k - 1;
        lemma_last_block(net, orders, row, k - 1);
        lemma_ends(net, orders, shorter);
        assert(list[t].pos == start_of_line(net, orders, row.last(), k - 1));
        assert forall|i: int| 0 <= i < n implies (#[trigger] list[i]).block < list[t].block by {
            assert(list[i] == ends(net, orders, shorter)[i]);
        }
        lemma_crossed_by(list, n, t, t);
        lemma_starts_prefix(list, ends(net, orders, shorter), list[t].pos, n);
        lemma_starts(net, orders, shorter, list[t].pos);
        match row.last() {
            Block::Vertex(_) => {
                assert(lines.take(k).drop_last() =~= lines.take(k - 1));
                assert(lines.take(k).last() == lines[k - 1]);
            },
            Block::Container(_, at) => {
                let r = right_of(active, at) as int;
                assert(r * (k - 1) + r == r * k) by (nonlinear_arith);
            },
        }
    } else {
        if row.last() is Vertex {
            assert(lines.take(0) =~= Seq::empty());
        } else {
            let r = right_of(active, row.last()->Container_1) as int;
            assert(r * 0 == 0) by (nonlinear_arith);
        }
    }
}

proof fn lemma_crossings(net: Wiring, orders: Seq<usize>, row: Seq<Block>)
    ensures
        crossed(ends(net, orders, row), ends(net, orders, row).len() as int) == net.crossings(
            orders,
            row,
        ),
    decreases row.len(),
{
    if row.len() > 0 {
        let shorter = row.drop_last();
        let block = row.last();
        lemma_crossings(net, orders, shorter);
        let list = ends(net, orders, row);
        let before = ends(net, orders, shorter);
        let n = before.len() as int;
        lemma_crossed_prefix(list, before, n, 0);
        let w = net.block_weight(block) as int;
        lemma_last_block(net, orders, row, w);
        let active = net.lines(orders, shorter);
        let lines = net.lines_of(orders, block);
        match block {
            Block::Vertex(_) => {
                assert(lines.take(w) =~= lines);
            },
            Block::Container(c, at) => {
                if c.len() > 0 {
                    assert(lines.drop_last() =~= Seq::empty());
                    assert(meetings(active, lines.drop_last()) == 0);
                } else {
                    let r = right_of(active, at) as int;
                    assert(r * w == 0) by (nonlinear_arith)
                        requires
                            w == 0,
                    ;
                }
            },
        }
    }
}

/// The crossings of a row are the pairs of its lines of which one arrives right of the other
/// and starts left of it.
pub proof fn law_crossings_are_pairs_of_lines(net: Wiring, orders: Seq<usize>, row: Seq<Block>)
    ensures
        crossing_pairs(ends(net, orders, row)).finite(),
        crossing_pairs(ends(net, orders, row)).len() == net.crossings(orders, row),
{
    let list = ends(net, orders, row);
    let n = list.len() as int;
    lemma_ends(net, orders, row);
    lemma_pairs(list, n, 0);
    lemma_crossings(net, orders, row);
    assert(pairs_up_to(list, n, 0) =~= crossing_pairs(list));
}

// Swaps.

/// Between neighbouring places of content there is nothing.
proof fn lemma_nothing_between(row: Seq<Block>, k: int, i: int)
    requires
        0 <= k < content(row).len() - 1,
        content(row)[k] < i < content(row)[k + 1],
    ensures
        slots_of(row[i]).len() == 0,
    decreases row.len(),
{
    lemma_content(row);
    let front = row.drop_last();
    lemma_content(front);
    if row.len() > 0 {
        if slots_of(row.last()).len() == 0 || k + 1 < content(front).len() {
            lemma_nothing_between(front, k, i);
        } else {
            lemma_last_content(front, i);
        }
    }
}

/// Behind the last place of content there is nothing.
proof fn lemma_last_content(row: Seq<Block>, i: int)
    requires
        0 <= i < row.len(),
        content(row).len() > 0 ==> content(row).last() < i,
    ensures
        slots_of(row[i]).len() == 0,
    decreases row.len(),
{
    let front = row.drop_last();
    lemma_content(front);
    if slots_of(row.last()).len() == 0 {
        if i < front.len() {
            lemma_last_content(front, i);
        }
    }
}

proof fn lemma_empty(row: Seq<Block>)
    requires
        forall|i: int| 0 <= i < row.len() ==> slots_of(#[trigger] row[i]).len() == 0,
    ensures
        flat(row) == Seq::<Slot>::empty(),
    decreases row.len(),
{
    if row.len() > 0 {
        let front = row.drop_last();
        assert forall|i: int| 0 <= i < front.len() implies slots_of(#[trigger] front[i]).len()
            == 0 by {
            assert(row[i] == front[i]);
        }
        lemma_empty(front);
        assert(slots_of(row[row.len() - 1]).len() == 0);
        assert(flat(row) =~= Seq::<Slot>::empty());
    }
}

/// A swap exchanges two neighbours of a row, a vertex or a run of segments each, and moves
/// nothing else.
pub proof fn law_swap_exchanges_neighbours(row: Seq<Block>, k: int) -> (ends: (Seq<Slot>, Seq<Slot>))
    requires
        0 <= k < content(row).len() - 1,
    ensures
        ({
            let a = slots_of(row[content(row)[k]]);
            let b = slots_of(row[content(row)[k + 1]]);
            &&& a.len() > 0 && b.len() > 0
            &&& flat(row) == ends.0 + a + b + ends.1
            &&& flat(swapped(row, k)) == ends.0 + b + a + ends.1
        }),
{
    lemma_content(row);
    let (i, j) = (content(row)[k], content(row)[k + 1]);
    let (p, q) = (row[i], row[j]);
    let mixed = row.update(i, q).update(j, p);
    let (x, y, z) = (row.take(i), row.subrange(i + 1, j), row.skip(j + 1));
    assert forall|m: int| 0 <= m < y.len() implies slots_of(#[trigger] y[m]).len() == 0 by {
        lemma_nothing_between(row, k, i + 1 + m);
    }
    lemma_empty(y);
    lemma_filled(row, k);
    lemma_filled(row, k + 1);
    lemma_normalized(mixed);
    lemma_placed(normalized(mixed));
    assert(row =~= x + (seq![p] + (y + (seq![q] + z))));
    assert(mixed =~= x + (seq![q] + (y + (seq![p] + z))));
    lemma_five(x, p, y, q, z);
    lemma_five(x, q, y, p, z);
    (flat(x), flat(z))
}

/// A place of content holds something.
proof fn lemma_filled(row: Seq<Block>, k: int)
    requires
        0 <= k < content(row).len(),
    ensures
        slots_of(row[content(row)[k]]).len() > 0,
    decreases row.len(),
{
    if row.len() > 0 {
        let front = row.drop_last();
        lemma_content(front);
        if k < content(front).len() {
            lemma_filled(front, k);
            assert(content(row)[k] == content(front)[k]);
            assert(row[content(row)[k]] == front[content(front)[k]]);
        }
    }
}

proof fn lemma_five(x: Seq<Block>, p: Block, y: Seq<Block>, q: Block, z: Seq<Block>)
    requires
        flat(y) == Seq::<Slot>::empty(),
    ensures
        flat(x + (seq![p] + (y + (seq![q] + z)))) == flat(x) + slots_of(p) + slots_of(q) + flat(z),
{
    lemma_flat_one(p);
    lemma_flat_one(q);
    lemma_flat_join(seq![q], z);
    lemma_flat_join(y, seq![q] + z);
    lemma_flat_join(seq![p], y + (seq![q] + z));
    lemma_flat_join(x, seq![p] + (y + (seq![q] + z)));
    assert(flat(x + (seq![p] + (y + (seq![q] + z)))) =~= flat(x) + slots_of(p) + slots_of(q)
        + flat(z));
}

} // verus!
