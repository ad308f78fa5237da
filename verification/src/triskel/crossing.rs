//! Crossings between two rows, and swaps that remove some.
use crate::triskel::lanes::{
    assign_container_positions, flat, has_room, is_normal, lanes, lemma_flat_join, lemma_normalized,
    lemma_placed, lemma_seated, lemma_seats, lemma_times_join, normalized, placed, seated, seats,
    slots_of, times, Block, Item, Layer, Net, Slot, Wiring,
};
use vstd::prelude::*;

verus! {

/// A line from the row before into a block of this row: its position there, and how many
/// parallel lines it stands for.
pub struct Line {
    pub pos: int,
    pub weight: nat,
}

impl Wiring {
    /// The lines into a block. A container counts as one block of parallel segments.
    pub open spec fn lines_of(self, orders: Seq<usize>, block: Block) -> Seq<Line> {
        match block {
            Block::Vertex(id) => Seq::new(
                self.back[id as int].len(),
                |i: int| Line { pos: orders[self.back[id as int][i] as int] as int, weight: 1 },
            ),
            Block::Container(c, pos) => if c.len() == 0 {
                Seq::empty()
            } else {
                seq![Line { pos, weight: c.len() }]
            },
        }
    }

    /// The lines into a row.
    pub open spec fn lines(self, orders: Seq<usize>, row: Seq<Block>) -> Seq<Line>
        decreases row.len(),
    {
        if row.len() == 0 {
            Seq::empty()
        } else {
            self.lines(orders, row.drop_last()) + self.lines_of(orders, row.last())
        }
    }

    /// How often lines into a row cross: each pair of lines into different blocks that
    /// start in the opposite order.
    pub open spec fn crossings(self, orders: Seq<usize>, row: Seq<Block>) -> nat
        decreases row.len(),
    {
        if row.len() == 0 {
            0
        } else {
            self.crossings(orders, row.drop_last()) + meetings(
                self.lines(orders, row.drop_last()),
                self.lines_of(orders, row.last()),
            )
        }
    }

    /// The vertices of a row are wired.
    pub open spec fn covers(self, row: Seq<Block>) -> bool {
        forall|i: int|
            0 <= i < row.len() ==> match #[trigger] row[i] {
                Block::Vertex(id) => id < self.back.len(),
                Block::Container(_, _) => true,
            }
    }

    /// How many lines lead into a block.
    pub open spec fn block_weight(self, block: Block) -> nat {
        match block {
            Block::Vertex(id) => self.back[id as int].len(),
            Block::Container(c, _) => c.len(),
        }
    }

    /// How many lines lead into a row.
    pub open spec fn row_weight(self, row: Seq<Block>) -> nat
        decreases row.len(),
    {
        if row.len() == 0 {
            0
        } else {
            self.row_weight(row.drop_last()) + self.block_weight(row.last())
        }
    }
}

/// How many of the lines start right of a position.
pub open spec fn right_of(lines: Seq<Line>, pos: int) -> nat
    decreases lines.len(),
{
    if lines.len() == 0 {
        0
    } else {
        right_of(lines.drop_last(), pos) + if lines.last().pos > pos {
            lines.last().weight
        } else {
            0
        }
    }
}

/// How often new lines cross lines further left.
pub open spec fn meetings(active: Seq<Line>, new: Seq<Line>) -> nat
    decreases new.len(),
{
    if new.len() == 0 {
        0
    } else {
        meetings(active, new.drop_last()) + right_of(active, new.last().pos) * new.last().weight
    }
}

pub open spec fn weight(lines: Seq<Line>) -> nat
    decreases lines.len(),
{
    if lines.len() == 0 {
        0
    } else {
        weight(lines.drop_last()) + lines.last().weight
    }
}

proof fn lemma_right_of_bound(lines: Seq<Line>, pos: int)
    ensures
        right_of(lines, pos) <= weight(lines),
    decreases lines.len(),
{
    if lines.len() > 0 {
        lemma_right_of_bound(lines.drop_last(), pos);
    }
}

proof fn lemma_meetings_bound(active: Seq<Line>, new: Seq<Line>)
    ensures
        meetings(active, new) <= weight(active) * weight(new),
    decreases new.len(),
{
    if new.len() > 0 {
        lemma_meetings_bound(active, new.drop_last());
        lemma_right_of_bound(active, new.last().pos);
        let (a, b, w, r) = (
            weight(active) as int,
            weight(new.drop_last()) as int,
            new.last().weight as int,
            right_of(active, new.last().pos) as int,
        );
        assert(a * b + r * w <= a * (b + w)) by (nonlinear_arith)
            requires
                r <= a,
                0 <= w,
        ;
    } else {
        assert(weight(active) * weight(new) == 0) by (nonlinear_arith)
            requires
                weight(new) == 0,
        ;
    }
}

proof fn lemma_weight_join(a: Seq<Line>, b: Seq<Line>)
    ensures
        weight(a + b) == weight(a) + weight(b),
    decreases b.len(),
{
    if b.len() == 0 {
        assert(a + b =~= a);
    } else {
        lemma_weight_join(a, b.drop_last());
        assert((a + b).drop_last() =~= a + b.drop_last());
    }
}

proof fn lemma_unit_weight(lines: Seq<Line>)
    requires
        forall|i: int| 0 <= i < lines.len() ==> (#[trigger] lines[i]).weight == 1,
    ensures
        weight(lines) == lines.len(),
    decreases lines.len(),
{
    if lines.len() > 0 {
        assert(lines[lines.len() - 1].weight == 1);
        assert forall|i: int| 0 <= i < lines.drop_last().len() implies (
        #[trigger] lines.drop_last()[i]).weight == 1 by {
            assert(lines[i].weight == 1);
        }
        lemma_unit_weight(lines.drop_last());
    }
}

proof fn lemma_block_weight(net: Wiring, orders: Seq<usize>, block: Block)
    ensures
        weight(net.lines_of(orders, block)) == net.block_weight(block),
{
    match block {
        Block::Vertex(id) => {
            lemma_unit_weight(net.lines_of(orders, block));
        },
        Block::Container(c, pos) => {
            if c.len() > 0 {
                let one = net.lines_of(orders, block);
                assert(one.drop_last() =~= Seq::empty());
                assert(weight(one.drop_last()) == 0);
            }
        },
    }
}

/// The weight of a row bounds its lines and its crossings.
pub proof fn lemma_crossings_bound(net: Wiring, orders: Seq<usize>, row: Seq<Block>)
    ensures
        weight(net.lines(orders, row)) == net.row_weight(row),
        net.crossings(orders, row) <= net.row_weight(row) * net.row_weight(row),
    decreases row.len(),
{
    if row.len() > 0 {
        let shorter = row.drop_last();
        lemma_crossings_bound(net, orders, shorter);
        lemma_block_weight(net, orders, row.last());
        lemma_weight_join(net.lines(orders, shorter), net.lines_of(orders, row.last()));
        lemma_meetings_bound(net.lines(orders, shorter), net.lines_of(orders, row.last()));
        let (a, b) = (net.row_weight(shorter) as int, net.block_weight(row.last()) as int);
        assert(a * a + a * b <= (a + b) * (a + b)) by (nonlinear_arith)
            requires
                0 <= a,
                0 <= b,
        ;
    } else {
        assert(net.row_weight(row) == 0 && net.crossings(orders, row) == 0);
        assert(net.row_weight(row) * net.row_weight(row) >= 0) by (nonlinear_arith)
            requires
                net.row_weight(row) == 0,
        ;
    }
}

/// The beginning of a row weighs no more than the row.
proof fn lemma_prefix_weight(net: Wiring, row: Seq<Block>, i: int)
    requires
        0 <= i <= row.len(),
    ensures
        net.row_weight(row.take(i)) <= net.row_weight(row),
    decreases row.len(),
{
    if i == row.len() {
        assert(row.take(i) =~= row);
    } else {
        lemma_prefix_weight(net, row.drop_last(), i);
        assert(row.drop_last().take(i) =~= row.take(i));
    }
}

pub open spec fn lines_view(active: Seq<(usize, usize)>) -> Seq<Line> {
    active.map_values(|line: (usize, usize)| Line { pos: line.0 as int, weight: line.1 as nat })
}

/// How many of the lines start right of a position.
fn count_right_of(active: &Vec<(usize, usize)>, pos: usize) -> (sum: usize)
    requires
        weight(lines_view(active@)) <= usize::MAX,
    ensures
        sum == right_of(lines_view(active@), pos as int),
{
    let ghost all = lines_view(active@);
    let mut sum: usize = 0;
    assert(all.take(0) =~= Seq::empty());
    for i in 0..active.len()
        invariant
            all == lines_view(active@),
            weight(all) <= usize::MAX,
            sum == right_of(all.take(i as int), pos as int),
    {
        proof {
            assert(all.take(i + 1).drop_last() =~= all.take(i as int));
            assert(all =~= all.take(i + 1) + all.skip(i + 1));
            lemma_weight_join(all.take(i + 1), all.skip(i + 1));
            lemma_right_of_bound(all.take(i + 1), pos as int);
            assert(all.take(i + 1).last() == all[i as int]);
        }
        if active[i].0 > pos {
            sum = sum + active[i].1;
        }
    }
    assert(all.take(all.len() as int) =~= all);
    sum
}

proof fn lemma_square(a: int, b: int)
    requires
        0 <= a <= b,
    ensures
        a * a <= b * b,
{
    assert(a * a <= b * b) by (nonlinear_arith)
        requires
            0 <= a <= b,
    ;
}

impl<'a> Net<'a> {
    /// Counts crossings, treating each container as a block of parallel segments.
    #[verifier::rlimit(40)]
    pub fn count_crossings(&self, orders: &Vec<usize>, layer: &Layer) -> (count: usize)
        requires
            self@.is_wired(orders@.len()),
            self@.covers(layer@),
            self@.row_weight(layer@) * self@.row_weight(layer@) <= usize::MAX,
        ensures
            count == self@.crossings(orders@, layer@),
    {
        let ghost net = self@;
        let ghost row = layer@;
        let ghost limit = net.row_weight(row);
        let mut crossings: usize = 0;
        // (position, weight)
        let mut active: Vec<(usize, usize)> = Vec::new();
        proof {
            assert(row.take(0) =~= Seq::empty());
            assert(lines_view(active@) =~= Seq::empty());
            assert(limit <= limit * limit) by (nonlinear_arith);
        }
        for i in 0..layer.items.len()
            invariant
                net == self@,
                row == layer@,
                limit == net.row_weight(row),
                limit <= limit * limit <= usize::MAX,
                net.is_wired(orders@.len()),
                net.covers(row),
                lines_view(active@) == net.lines(orders@, row.take(i as int)),
                crossings == net.crossings(orders@, row.take(i as int)),
        {
            let ghost done = row.take(i as int);
            let ghost before = lines_view(active@);
            proof {
                assert(row.take(i + 1).drop_last() =~= done);
                assert(row.take(i + 1).last() == row[i as int]);
                assert(row[i as int] == layer.items@[i as int]@);
                lemma_crossings_bound(net, orders@, row.take(i + 1));
                lemma_crossings_bound(net, orders@, done);
                lemma_prefix_weight(net, row, i + 1);
                lemma_prefix_weight(net, row, i as int);
                lemma_square(net.row_weight(row.take(i + 1)) as int, limit as int);
            }
            match &layer.items[i] {
                Item::Vertex(node) => {
                    let near = &self.back[*node];
                    let ghost new = net.lines_of(orders@, row[i as int]);
                    let ghost base = crossings as int;
                    assert(near@ == net.back[*node as int]);
                    for k in 0..near.len()
                        invariant
                            before == lines_view(active@),
                            weight(before) <= usize::MAX,
                            net.is_wired(orders@.len()),
                            *node < net.back.len(),
                            near@ == net.back[*node as int],
                            new == net.lines_of(orders@, Block::Vertex(*node)),
                            base + meetings(before, new) <= usize::MAX,
                            crossings == base + meetings(before, new.take(k as int)),
                    {
                        proof {
                            assert(net.back[*node as int][k as int] < orders@.len());
                            assert(new.take(k + 1).drop_last() =~= new.take(k as int));
                            assert(new.take(k + 1).last() == new[k as int]);
                            lemma_meetings_prefix(before, new, k + 1);
                        }
                        let pos: usize = orders[near[k]];
                        let add: usize = count_right_of(&active, pos);
                        assert(right_of(before, new[k as int].pos) * new[k as int].weight == add)
                            by (nonlinear_arith)
                            requires
                                right_of(before, new[k as int].pos) == add,
                                new[k as int].weight == 1,
                        ;
                        crossings = crossings + add;
                    }
                    assert(new.take(new.len() as int) =~= new);
                    for k in 0..near.len()
                        invariant
                            net.is_wired(orders@.len()),
                            *node < net.back.len(),
                            near@ == net.back[*node as int],
                            new == net.lines_of(orders@, Block::Vertex(*node)),
                            lines_view(active@) == before + new.take(k as int),
                    {
                        assert(net.back[*node as int][k as int] < orders@.len());
                        let ghost line = (orders@[near@[k as int] as int], 1usize);
                        assert(lines_view(active@.push(line)) =~= lines_view(active@).push(
                            new[k as int],
                        ));
                        active.push((orders[near[k]], 1));
                        assert(lines_view(active@) =~= before + new.take(k + 1));
                    }
                },
                Item::Container(c, pos) => {
                    if c.len() > 0 {
                        let size: usize = c.len();
                        let add: usize = count_right_of(&active, *pos);
                        proof {
                            let one = net.lines_of(orders@, row[i as int]);
                            assert(one.drop_last() =~= Seq::empty());
                            assert(meetings(before, one.drop_last()) == 0);
                            assert(meetings(before, one) == add * size);
                        }
                        crossings = crossings + add * size;
                        active.push((*pos, size));
                        assert(lines_view(active@) =~= before + net.lines_of(
                            orders@,
                            row[i as int],
                        ));
                    } else {
                        assert(before + Seq::<Line>::empty() =~= before);
                    }
                },
            }
        }
        assert(row.take(row.len() as int) =~= row);
        crossings
    }
}

/// A part of the new lines has no more crossings than all of them.
proof fn lemma_meetings_prefix(active: Seq<Line>, new: Seq<Line>, k: int)
    requires
        0 <= k <= new.len(),
    ensures
        meetings(active, new.take(k)) <= meetings(active, new),
    decreases new.len(),
{
    if k == new.len() {
        assert(new.take(k) =~= new);
    } else {
        lemma_meetings_prefix(active, new.drop_last(), k);
        assert(new.drop_last().take(k) =~= new.take(k));
    }
}

// Adjacent swaps.

/// The places of the vertices and non-empty containers of a row.
pub open spec fn content(row: Seq<Block>) -> Seq<int>
    decreases row.len(),
{
    if row.len() == 0 {
        Seq::empty()
    } else if slots_of(row.last()).len() == 0 {
        content(row.drop_last())
    } else {
        content(row.drop_last()).push(row.len() - 1)
    }
}

/// The row with its k-th and next elements swapped, empty containers aside, and new
/// positions.
pub open spec fn swapped(row: Seq<Block>, k: int) -> Seq<Block> {
    let (a, b) = (content(row)[k], content(row)[k + 1]);
    placed(normalized(row.update(a, row[b]).update(b, row[a])))
}

impl Wiring {
    /// The crossings of a row whose vertices are seated.
    pub open spec fn score(self, orders: Seq<usize>, row: Seq<Block>) -> nat {
        self.crossings(seated(row, orders), row)
    }

    /// Swapping the k-th and next elements removes crossings.
    pub open spec fn gains(self, orders: Seq<usize>, row: Seq<Block>, k: int) -> bool {
        &&& 0 <= k < content(row).len() - 1
        &&& self.score(orders, swapped(row, k)) < self.score(orders, row)
    }

    /// The first swap that removes crossings.
    pub open spec fn is_first_gain(self, orders: Seq<usize>, row: Seq<Block>, k: int) -> bool {
        &&& self.gains(orders, row, k)
        &&& forall|j: int| #[trigger] self.gains(orders, row, j) ==> k <= j
    }

    /// No swap of neighbours removes a crossing.
    pub open spec fn is_settled(self, orders: Seq<usize>, row: Seq<Block>) -> bool {
        forall|j: int| !#[trigger] self.gains(orders, row, j)
    }

    /// The row after swaps of neighbours, the first useful one each time.
    pub open spec fn settled(self, orders: Seq<usize>, row: Seq<Block>) -> Seq<Block>
        decreases self.score(orders, row),
    {
        if exists|k: int| self.is_first_gain(orders, row, k) {
            let k = choose|k: int| self.is_first_gain(orders, row, k);
            self.settled(orders, swapped(row, k))
        } else {
            row
        }
    }
}

/// Places of content are places of the row, ascending, and nothing stands between
/// neighbours.
pub proof fn lemma_content(row: Seq<Block>)
    ensures
        content(row).len() <= row.len(),
        forall|i: int|
            0 <= i < content(row).len() ==> 0 <= #[trigger] content(row)[i] < row.len(),
        forall|i: int, j: int|
            0 <= i < j < content(row).len() ==> #[trigger] content(row)[i]
                < #[trigger] content(row)[j],
    decreases row.len(),
{
    if row.len() > 0 {
        lemma_content(row.drop_last());
    }
}

/// A useful swap is the first one or comes after it.
pub proof fn lemma_first_gain(net: Wiring, orders: Seq<usize>, row: Seq<Block>, k: int)
    requires
        net.gains(orders, row, k),
    ensures
        exists|j: int| net.is_first_gain(orders, row, j),
    decreases k,
{
    if !net.is_first_gain(orders, row, k) {
        let j = choose|j: int| #[trigger] net.gains(orders, row, j) && j < k;
        lemma_first_gain(net, orders, row, j);
    }
}

/// Swapping two blocks keeps the elements of a row.
pub proof fn lemma_swap(row: Seq<Block>, a: int, b: int, slot: Slot)
    requires
        0 <= a < b < row.len(),
    ensures
        times(flat(row.update(a, row[b]).update(b, row[a])), slot) == times(flat(row), slot),
{
    let x = row.take(a);
    let y = row.subrange(a + 1, b);
    let z = row.skip(b + 1);
    let (p, q) = (seq![row[a]], seq![row[b]]);
    assert(row =~= x + (p + (y + (q + z))));
    assert(row.update(a, row[b]).update(b, row[a]) =~= x + (q + (y + (p + z))));
    lemma_times_five(x, p, y, q, z, slot);
    lemma_times_five(x, q, y, p, z, slot);
}

proof fn lemma_times_five(
    x: Seq<Block>,
    p: Seq<Block>,
    y: Seq<Block>,
    q: Seq<Block>,
    z: Seq<Block>,
    slot: Slot,
)
    ensures
        times(flat(x + (p + (y + (q + z)))), slot) == times(flat(x), slot) + times(flat(p), slot)
            + times(flat(y), slot) + times(flat(q), slot) + times(flat(z), slot),
{
    lemma_flat_join(q, z);
    lemma_times_join(flat(q), flat(z), slot);
    lemma_flat_join(y, q + z);
    lemma_times_join(flat(y), flat(q + z), slot);
    lemma_flat_join(p, y + (q + z));
    lemma_times_join(flat(p), flat(y + (q + z)), slot);
    lemma_flat_join(x, p + (y + (q + z)));
    lemma_times_join(flat(x), flat(p + (y + (q + z))), slot);
}

/// Rows with the same elements.
pub open spec fn same_slots(a: Seq<Block>, b: Seq<Block>) -> bool {
    forall|slot: Slot| #[trigger] times(flat(a), slot) == times(flat(b), slot)
}

pub proof fn lemma_swapped(row: Seq<Block>, k: int)
    requires
        0 <= k < content(row).len() - 1,
    ensures
        same_slots(swapped(row, k), row),
        is_normal(swapped(row, k)),
        placed(swapped(row, k)) == swapped(row, k),
{
    lemma_content(row);
    let (a, b) = (content(row)[k], content(row)[k + 1]);
    let mixed = row.update(a, row[b]).update(b, row[a]);
    lemma_normalized(mixed);
    lemma_placed(normalized(mixed));
    assert forall|slot: Slot| #[trigger] times(flat(swapped(row, k)), slot) == times(
        flat(row),
        slot,
    ) by {
        lemma_swap(row, a, b, slot);
    }
}

/// Rows with the same elements are alike in size, seats, and weight.
pub proof fn lemma_same_slots(net: Wiring, a: Seq<Block>, b: Seq<Block>)
    requires
        same_slots(a, b),
    ensures
        flat(a).to_multiset() == flat(b).to_multiset(),
        flat(a).len() == flat(b).len(),
        forall|slot: Slot| #[trigger] flat(a).contains(slot) == flat(b).contains(slot),
        forall|v: usize| #[trigger] seats(a, v) == seats(b, v),
        net.row_weight(a) == net.row_weight(b),
        net.covers(a) == net.covers(b),
{
    broadcast use vstd::seq_lib::group_to_multiset_ensures;

    assert(flat(a).to_multiset() =~= flat(b).to_multiset()) by {
        assert forall|slot: Slot| flat(a).to_multiset().count(slot) == flat(b).to_multiset().count(
            slot,
        ) by {
            assert(times(flat(a), slot) == times(flat(b), slot));
        }
    }
    assert(flat(a).to_multiset().len() == flat(b).to_multiset().len());
    assert forall|slot: Slot| #[trigger] flat(a).contains(slot) == flat(b).contains(slot) by {
        assert(times(flat(a), slot) == times(flat(b), slot));
    }
    assert forall|v: usize| #[trigger] seats(a, v) == seats(b, v) by {
        lemma_seats(a, v);
        lemma_seats(b, v);
    }
    lemma_slot_weight(net, a);
    lemma_slot_weight(net, b);
    lemma_slots_weight_same(net, flat(a), flat(b));
    lemma_covers(net, a);
    lemma_covers(net, b);
    assert(covers_slots(net, flat(a)) == covers_slots(net, flat(b))) by {
        assert forall|v: usize| flat(a).contains(Slot::Vertex(v)) == #[trigger] flat(b).contains(
            Slot::Vertex(v),
        ) by {
            assert(flat(a).contains(Slot::Vertex(v)) == flat(b).contains(Slot::Vertex(v)));
        }
    }
}

impl Wiring {
    /// How many lines lead into an element of a row.
    pub open spec fn slot_weight(self, slot: Slot) -> nat {
        match slot {
            Slot::Vertex(id) => self.back[id as int].len(),
            Slot::Segment(_) => 1,
        }
    }

    /// How many lines lead into the elements of a row.
    pub open spec fn slots_weight(self, row: Seq<Slot>) -> nat
        decreases row.len(),
    {
        if row.len() == 0 {
            0
        } else {
            self.slots_weight(row.drop_last()) + self.slot_weight(row.last())
        }
    }
}

/// The vertices among the elements of a row are wired.
pub open spec fn covers_slots(net: Wiring, row: Seq<Slot>) -> bool {
    forall|v: usize| #[trigger] row.contains(Slot::Vertex(v)) ==> v < net.back.len()
}

pub proof fn lemma_covers(net: Wiring, row: Seq<Block>)
    ensures
        net.covers(row) == covers_slots(net, flat(row)),
{
    if net.covers(row) {
        assert forall|v: usize| #[trigger] flat(row).contains(Slot::Vertex(v)) implies v
            < net.back.len() by {
            lemma_seats(row, v);
            let i = choose|i: int| 0 <= i < row.len() && #[trigger] row[i] == Block::Vertex(v);
            assert(row[i] == Block::Vertex(v));
        }
    }
    if covers_slots(net, flat(row)) {
        assert forall|i: int| 0 <= i < row.len() implies match #[trigger] row[i] {
            Block::Vertex(id) => id < net.back.len(),
            Block::Container(_, _) => true,
        } by {
            match row[i] {
                Block::Vertex(id) => {
                    assert(seats(row, id));
                    lemma_seats(row, id);
                },
                Block::Container(_, _) => {},
            }
        }
    }
}

proof fn lemma_slots_weight_join(net: Wiring, a: Seq<Slot>, b: Seq<Slot>)
    ensures
        net.slots_weight(a + b) == net.slots_weight(a) + net.slots_weight(b),
    decreases b.len(),
{
    if b.len() == 0 {
        assert(a + b =~= a);
    } else {
        lemma_slots_weight_join(net, a, b.drop_last());
        assert((a + b).drop_last() =~= a + b.drop_last());
    }
}

proof fn lemma_lanes_weight(net: Wiring, c: Seq<usize>)
    ensures
        net.slots_weight(lanes(c)) == c.len(),
    decreases c.len(),
{
    if c.len() > 0 {
        lemma_lanes_weight(net, c.drop_last());
        assert(lanes(c).drop_last() =~= lanes(c.drop_last()));
    }
}

/// The weight of a row is that of its elements.
pub proof fn lemma_slot_weight(net: Wiring, row: Seq<Block>)
    ensures
        net.row_weight(row) == net.slots_weight(flat(row)),
    decreases row.len(),
{
    if row.len() > 0 {
        lemma_slot_weight(net, row.drop_last());
        lemma_slots_weight_join(net, flat(row.drop_last()), slots_of(row.last()));
        match row.last() {
            Block::Vertex(id) => {
                let one = slots_of(row.last());
                assert(one.drop_last() =~= Seq::empty());
                assert(net.slots_weight(one.drop_last()) == 0);
            },
            Block::Container(c, _) => {
                lemma_lanes_weight(net, c);
            },
        }
    }
}

/// The weight of elements does not depend on their order.
proof fn lemma_slots_weight_same(net: Wiring, a: Seq<Slot>, b: Seq<Slot>)
    requires
        a.to_multiset() == b.to_multiset(),
    ensures
        net.slots_weight(a) == net.slots_weight(b),
    decreases a.len(),
{
    broadcast use vstd::seq_lib::group_to_multiset_ensures;

    assert(a.len() == a.to_multiset().len() && b.len() == b.to_multiset().len());
    if a.len() > 0 {
        let slot = a.last();
        assert(a.contains(slot));
        assert(a.to_multiset().count(slot) > 0);
        assert(b.contains(slot));
        let i = choose|i: int| 0 <= i < b.len() && b[i] == slot;
        let (x, z) = (b.take(i), b.skip(i + 1));
        assert(b.remove(i) =~= x + z);
        assert(b =~= x + seq![slot] + z);
        lemma_slots_weight_join(net, x + seq![slot], z);
        lemma_slots_weight_join(net, x, seq![slot]);
        lemma_slots_weight_join(net, x, z);
        assert(seq![slot].drop_last() =~= Seq::empty());
        assert(net.slots_weight(seq![slot].drop_last()) == 0);
        assert(seq![slot].last() == slot);
        assert(a =~= a.drop_last().push(slot));
        assert(a.drop_last() =~= a.remove(a.len() - 1));
        assert(a.drop_last().to_multiset() =~= b.remove(i).to_multiset());
        lemma_slots_weight_same(net, a.drop_last(), b.remove(i));
    }
}

impl<'a> Net<'a> {
    /// The score of a row: seats its vertices and counts its crossings.
    fn seat_and_count(&self, orders: &mut Vec<usize>, layer: &mut Layer, Ghost(start): Ghost<
        Seq<usize>,
    >) -> (count: usize)
        requires
            self@.is_wired(old(orders)@.len()),
            old(orders)@.len() == start.len(),
            self@.covers(old(layer)@),
            flat(old(layer)@).len() <= usize::MAX,
            self@.row_weight(old(layer)@) * self@.row_weight(old(layer)@) <= usize::MAX,
            forall|v: usize|
                v < start.len() && !#[trigger] seats(old(layer)@, v) ==> old(orders)@[v as int]
                    == start[v as int],
        ensures
            final(layer)@ == placed(old(layer)@),
            final(orders)@ == seated(placed(old(layer)@), start),
            count == self@.score(start, placed(old(layer)@)),
    {
        let ghost row = layer@;
        let ghost before = orders@;
        let room = orders.len();
        proof {
            lemma_placed(row);
            lemma_same_slots(self@, row, placed(row));
            lemma_covers(self@, row);
            lemma_seated(row, before, start);
            lemma_seated_placed(row, start);
            assert(has_room(flat(row), orders@.len())) by {
                assert forall|i: int| 0 <= i < flat(row).len() implies match #[trigger] flat(
                    row,
                )[i] {
                    Slot::Vertex(id) => id < orders@.len(),
                    Slot::Segment(_) => true,
                } by {
                    assert(flat(row).contains(flat(row)[i]));
                    match flat(row)[i] {
                        Slot::Vertex(id) => assert(flat(row).contains(Slot::Vertex(id))),
                        Slot::Segment(_) => {},
                    }
                }
            }
        }
        assign_container_positions(layer, orders);
        self.count_crossings(orders, layer)
    }

    /// The row after one swap, with its score. The orders of the row's vertices are left as
    /// they come.
    fn try_swap(
        &self,
        orders: &mut Vec<usize>,
        layer: &Layer,
        a: usize,
        b: usize,
        Ghost(k): Ghost<int>,
        Ghost(start): Ghost<Seq<usize>>,
    ) -> (res: (Layer, usize))
        requires
            old(orders)@.len() == start.len(),
            self@.is_wired(start.len()),
            self@.covers(layer@),
            flat(layer@).len() <= usize::MAX,
            self@.row_weight(layer@) * self@.row_weight(layer@) <= usize::MAX,
            0 <= k < content(layer@).len() - 1,
            a == content(layer@)[k],
            b == content(layer@)[k + 1],
            forall|v: usize|
                v < start.len() && !#[trigger] seats(layer@, v) ==> old(orders)@[v as int]
                    == start[v as int],
        ensures
            res.0@ == swapped(layer@, k),
            res.1 == self@.score(start, swapped(layer@, k)),
            final(orders)@.len() == start.len(),
            forall|v: usize|
                v < start.len() && !#[trigger] seats(layer@, v) ==> final(orders)@[v as int]
                    == start[v as int],
    {
        let ghost row = layer@;
        let ghost next = swapped(row, k);
        let ghost mixed = row.update(a as int, row[b as int]).update(b as int, row[a as int]);
        let mut candidate = layer.copy();
        let room = orders.len();
        proof {
            lemma_content(row);
            assert(content(row)[k] < content(row)[k + 1]);
        }
        swap_items(&mut candidate, a, b);
        candidate.normalize();
        proof {
            assert(next == placed(normalized(mixed)));
            lemma_swapped(row, k);
            lemma_placed(normalized(mixed));
            lemma_same_slots(self@, normalized(mixed), next);
            lemma_same_slots(self@, next, row);
        }
        let score: usize = self.seat_and_count(orders, &mut candidate, Ghost(start));
        proof {
            lemma_seated(next, start, start);
            assert forall|v: usize| v < start.len() && !#[trigger] seats(row, v) implies orders@[v as int]
                == start[v as int] by {
                assert(seats(next, v) == seats(row, v));
            }
        }
        (candidate, score)
    }

    /// The row after the first swap that removes crossings. The orders of the row's vertices
    /// are left as they come.
    fn first_gain(&self, orders: &mut Vec<usize>, layer: &Layer, current: usize, Ghost(
        start,
    ): Ghost<Seq<usize>>) -> (found: Option<Layer>)
        requires
            old(orders)@.len() == start.len(),
            self@.is_wired(start.len()),
            self@.covers(layer@),
            flat(layer@).len() <= usize::MAX,
            self@.row_weight(layer@) * self@.row_weight(layer@) <= usize::MAX,
            placed(layer@) == layer@,
            current == self@.score(start, layer@),
            forall|v: usize|
                v < start.len() && !#[trigger] seats(layer@, v) ==> old(orders)@[v as int]
                    == start[v as int],
        ensures
            final(orders)@.len() == start.len(),
            forall|v: usize|
                v < start.len() && !#[trigger] seats(layer@, v) ==> final(orders)@[v as int]
                    == start[v as int],
            match found {
                Some(candidate) => exists|j: int| #[trigger]
                    self@.is_first_gain(start, layer@, j) && candidate@ == swapped(layer@, j),
                None => self@.is_settled(start, layer@),
            },
    {
        let ghost row = layer@;
        let places = self.content_places(layer);
        let count = places.len();
        if count == 0 {
            assert(self@.is_settled(start, row)) by {
                assert forall|j: int| !#[trigger] self@.gains(start, row, j) by {}
            }
            return None;
        }
        for k in 1..count
            invariant
                orders@.len() == start.len(),
                self@.is_wired(start.len()),
                self@.covers(row),
                flat(row).len() <= usize::MAX,
                self@.row_weight(row) * self@.row_weight(row) <= usize::MAX,
                layer@ == row,
                placed(row) == row,
                current == self@.score(start, row),
                count == places@.len(),
                count == content(row).len(),
                forall|i: int| 0 <= i < count ==> #[trigger] places@[i] == content(row)[i],
                forall|v: usize|
                    v < start.len() && !#[trigger] seats(row, v) ==> orders@[v as int]
                        == start[v as int],
                forall|j: int| 0 <= j < k - 1 ==> !#[trigger] self@.gains(start, row, j),
        {
            assert(places@[k - 1] == content(row)[k - 1]);
            assert(places@[k as int] == content(row)[k as int]);
            let (candidate, score) = self.try_swap(
                orders,
                layer,
                places[k - 1],
                places[k],
                Ghost(k - 1),
                Ghost(start),
            );
            if score < current {
                proof {
                    assert(self@.gains(start, row, k - 1));
                    assert(self@.is_first_gain(start, row, k - 1));
                }
                return Some(candidate);
            }
            assert(!self@.gains(start, row, k - 1));
        }
        assert(self@.is_settled(start, row)) by {
            assert forall|j: int| !#[trigger] self@.gains(start, row, j) by {}
        }
        None
    }

    /// Local adjacent-swap refinement. Empty containers are structural separators, not
    /// ordering elements, so candidate swaps operate on the adjacent vertices and non-empty
    /// containers visible through them. Every candidate is normalised again and accepted
    /// only when it strictly improves the crossing count.
    pub fn transpose(&self, orders: &mut Vec<usize>, layer: &mut Layer) -> (crossings: usize)
        requires
            self@.is_wired(old(orders)@.len()),
            self@.covers(old(layer)@),
            flat(old(layer)@).len() <= usize::MAX,
            self@.row_weight(old(layer)@) * self@.row_weight(old(layer)@) <= usize::MAX,
        ensures
            final(layer)@ == self@.settled(old(orders)@, placed(old(layer)@)),
            final(orders)@ == seated(final(layer)@, old(orders)@),
            crossings == self@.score(old(orders)@, final(layer)@),
            self@.is_settled(old(orders)@, final(layer)@),
            crossings <= self@.score(old(orders)@, placed(old(layer)@)),
            same_slots(final(layer)@, old(layer)@),
            placed(final(layer)@) == final(layer)@,
            is_normal(old(layer)@) ==> is_normal(final(layer)@),
    {
        let room = orders.len();
        let ghost start = orders@;
        let ghost first = layer@;
        let ghost goal = self@.settled(start, placed(first));
        let ghost entry = self@.score(start, placed(first));
        proof {
            lemma_placed(first);
        }
        loop
            invariant
                start == old(orders)@,
                first == old(layer)@,
                goal == self@.settled(start, placed(first)),
                entry == self@.score(start, placed(first)),
                orders@.len() == start.len(),
                start.len() == room,
                self@.is_wired(start.len()),
                self@.covers(layer@),
                flat(layer@).len() <= usize::MAX,
                self@.row_weight(layer@) * self@.row_weight(layer@) <= usize::MAX,
                same_slots(layer@, first),
                is_normal(first) ==> is_normal(layer@),
                goal == self@.settled(start, placed(layer@)),
                self@.score(start, placed(layer@)) <= entry,
                forall|v: usize|
                    v < start.len() && !#[trigger] seats(layer@, v) ==> orders@[v as int]
                        == start[v as int],
            decreases self@.score(start, placed(layer@)),
        {
            let ghost row = placed(layer@);
            proof {
                lemma_placed(layer@);
                lemma_same_slots(self@, row, layer@);
            }
            let current: usize = self.seat_and_count(orders, layer, Ghost(start));
            proof {
                lemma_seated(row, start, start);
            }
            let found = self.first_gain(orders, layer, current, Ghost(start));
            match found {
                Some(candidate) => {
                    proof {
                        let j = choose|j: int| #[trigger]
                            self@.is_first_gain(start, row, j) && candidate@ == swapped(row, j);
                        let c = choose|c: int| self@.is_first_gain(start, row, c);
                        assert(c == j);
                        lemma_swapped(row, j);
                        lemma_same_slots(self@, swapped(row, j), row);
                        assert(self@.settled(start, row) == self@.settled(start, swapped(row, j)));
                        assert forall|slot: Slot| #[trigger] times(flat(candidate@), slot) == times(
                            flat(first),
                            slot,
                        ) by {
                            assert(times(flat(swapped(row, j)), slot) == times(flat(row), slot));
                            assert(times(flat(row), slot) == times(flat(first), slot));
                        }
                    }
                    *layer = candidate;
                },
                None => {
                    // A rejected candidate temporarily rewrote the orders of this row.
                    assign_again(self, layer, orders, Ghost(start));
                    proof {
                        assert(self@.is_settled(start, row)) by {
                            assert forall|j: int| !#[trigger] self@.gains(start, row, j) by {}
                        }
                        assert(!exists|c: int| self@.is_first_gain(start, row, c));
                        assert(self@.settled(start, row) == row);
                    }
                    return current;
                },
            }
        }
    }

    /// The places of the vertices and non-empty containers of a row.
    fn content_places(&self, layer: &Layer) -> (places: Vec<usize>)
        ensures
            places@.len() == content(layer@).len(),
            forall|i: int| 0 <= i < places@.len() ==> #[trigger] places@[i] == content(layer@)[i],
    {
        let ghost row = layer@;
        let mut places: Vec<usize> = Vec::new();
        for i in 0..layer.items.len()
            invariant
                row == layer@,
                places@.len() == content(row.take(i as int)).len(),
                forall|k: int|
                    0 <= k < places@.len() ==> #[trigger] places@[k] == content(
                        row.take(i as int),
                    )[k],
        {
            assert(row.take(i + 1).drop_last() =~= row.take(i as int));
            assert(row[i as int] == layer.items@[i as int]@);
            if layer.items[i].size() > 0 {
                places.push(i);
            }
        }
        assert(row.take(row.len() as int) =~= row);
        places
    }
}

fn assign_again(net: &Net, layer: &mut Layer, orders: &mut Vec<usize>, Ghost(start): Ghost<
    Seq<usize>,
>)
    requires
        net@.is_wired(old(orders)@.len()),
        old(orders)@.len() == start.len(),
        net@.covers(old(layer)@),
        flat(old(layer)@).len() <= usize::MAX,
        placed(old(layer)@) == old(layer)@,
        forall|v: usize|
            v < start.len() && !#[trigger] seats(old(layer)@, v) ==> old(orders)@[v as int]
                == start[v as int],
    ensures
        final(layer)@ == old(layer)@,
        final(orders)@ == seated(old(layer)@, start),
{
    let room = orders.len();
    proof {
        lemma_seated(layer@, orders@, start);
        lemma_covers(net@, layer@);
        assert forall|i: int| 0 <= i < flat(layer@).len() implies match #[trigger] flat(
            layer@,
        )[i] {
            Slot::Vertex(id) => id < orders@.len(),
            Slot::Segment(_) => true,
        } by {
            assert(flat(layer@).contains(flat(layer@)[i]));
            match flat(layer@)[i] {
                Slot::Vertex(id) => assert(flat(layer@).contains(Slot::Vertex(id))),
                Slot::Segment(_) => {},
            }
        }
    }
    assign_container_positions(layer, orders);
}

/// Swaps two items of a row.
fn swap_items(layer: &mut Layer, a: usize, b: usize)
    requires
        a < b < old(layer)@.len(),
    ensures
        final(layer)@ == old(layer)@.update(a as int, old(layer)@[b as int]).update(
            b as int,
            old(layer)@[a as int],
        ),
{
    let ghost row = layer@;
    assert(layer.items@.len() == row.len());
    let mut x: Item = Item::Vertex(0);
    layer.items.set_and_swap(a, &mut x);
    layer.items.set_and_swap(b, &mut x);
    layer.items.set_and_swap(a, &mut x);
    assert(layer@ =~= row.update(a as int, row[b as int]).update(b as int, row[a as int]));
}

proof fn lemma_seated_placed(row: Seq<Block>, orders: Seq<usize>)
    ensures
        seated(placed(row), orders) == seated(row, orders),
    decreases row.len(),
{
    if row.len() > 0 {
        let p = placed(row);
        assert(p.drop_last() =~= placed(row.drop_last())) by {
            assert forall|i: int| 0 <= i < row.len() - 1 implies p.drop_last()[i] == placed(
                row.drop_last(),
            )[i] by {
                assert(row.drop_last().take(i) =~= row.take(i));
            }
        }
        lemma_seated_placed(row.drop_last(), orders);
        lemma_placed(row.drop_last());
    }
}

} // verus!
