//! The rows of a layout while nodes are being ordered.
//!
//! Long edges live as segments inside *containers*: contiguous runs of co-travelling
//! segments between two vertices of a row. A segment is known by the vertex at its far
//! end. Vertices where segments start are absorbed into the preceding container; vertices
//! where they end are extracted back out at their row.
use crate::fx;
use crate::sorting::{sort_pairs, sorted_pairs};
use rustc_hash::FxHashSet;
use vstd::prelude::*;
use vstd::seq_lib::lemma_multiset_commutative;

verus! {

/// One left-to-right element of a row: a vertex, or a segment lane passing through
/// (identified by the vertex at its far end).
#[derive(Clone, Copy, Debug, PartialEq, Eq, Structural)]
pub enum Slot {
    Vertex(usize),
    Segment(usize),
}

/// A vertex, or a run of segments with the position of its first.
#[derive(Debug)]
pub enum Item {
    Vertex(usize),
    Container(Vec<usize>, usize),
}

/// The mathematical reading of an item.
pub enum Block {
    Vertex(usize),
    Container(Seq<usize>, int),
}

impl View for Item {
    type V = Block;

    open spec fn view(&self) -> Block {
        match self {
            Item::Vertex(id) => Block::Vertex(*id),
            Item::Container(c, pos) => Block::Container(c@, *pos as int),
        }
    }
}

impl Item {
    /// How many places the item takes in its row.
    pub fn size(&self) -> (size: usize)
        ensures
            size == slots_of(self@).len(),
    {
        match self {
            Item::Vertex(_) => 1,
            Item::Container(c, _) => c.len(),
        }
    }
}

pub open spec fn blocks(items: Seq<Item>) -> Seq<Block> {
    items.map_values(|item: Item| item@)
}

/// The lanes of a run of segments.
pub open spec fn lanes(c: Seq<usize>) -> Seq<Slot> {
    Seq::new(c.len(), |i: int| Slot::Segment(c[i]))
}

/// The elements of the row that a block covers.
pub open spec fn slots_of(block: Block) -> Seq<Slot> {
    match block {
        Block::Vertex(id) => seq![Slot::Vertex(id)],
        Block::Container(c, _) => lanes(c),
    }
}

/// The elements of a row from left to right.
pub open spec fn flat(row: Seq<Block>) -> Seq<Slot>
    decreases row.len(),
{
    if row.len() == 0 {
        Seq::empty()
    } else {
        flat(row.drop_last()) + slots_of(row.last())
    }
}

/// A row of containers with single vertices between them, from its first place on.
pub open spec fn alternates(row: Seq<Block>) -> bool {
    forall|i: int|
        0 <= i < row.len() ==> ((#[trigger] row[i] is Container) <==> i % 2 == 0)
}

/// An alternating row that starts and ends with a container.
pub open spec fn is_normal(row: Seq<Block>) -> bool {
    &&& alternates(row)
    &&& row.len() % 2 == 1
}

pub proof fn lemma_flat_push(row: Seq<Block>, block: Block)
    ensures
        flat(row.push(block)) == flat(row) + slots_of(block),
{
    assert(row.push(block).drop_last() =~= row);
}

pub proof fn lemma_flat_join(a: Seq<Block>, b: Seq<Block>)
    ensures
        flat(a + b) == flat(a) + flat(b),
    decreases b.len(),
{
    if b.len() == 0 {
        assert(a + b =~= a);
        assert(flat(a) + flat(b) =~= flat(a));
    } else {
        lemma_flat_join(a, b.drop_last());
        assert((a + b).drop_last() =~= a + b.drop_last());
        assert(flat(a + b) =~= flat(a) + flat(b));
    }
}

pub proof fn lemma_flat_one(block: Block)
    ensures
        flat(seq![block]) == slots_of(block),
{
    lemma_flat_push(Seq::empty(), block);
    assert(Seq::<Block>::empty().push(block) =~= seq![block]);
    assert(Seq::<Slot>::empty() + slots_of(block) =~= slots_of(block));
}

/// A row whose last block has been replaced.
pub proof fn lemma_flat_last(row: Seq<Block>, block: Block)
    requires
        row.len() > 0,
    ensures
        flat(row.drop_last().push(block)) == flat(row.drop_last()) + slots_of(block),
        flat(row) == flat(row.drop_last()) + slots_of(row.last()),
{
    lemma_flat_push(row.drop_last(), block);
}

pub proof fn lemma_lanes_join(a: Seq<usize>, b: Seq<usize>)
    ensures
        lanes(a + b) == lanes(a) + lanes(b),
{
    assert(lanes(a + b) =~= lanes(a) + lanes(b));
}

// Normal rows.

pub open spec fn normal_step(out: Seq<Block>, block: Block) -> Seq<Block> {
    match block {
        Block::Container(more, _) => match out.last() {
            Block::Container(c, pos) => out.drop_last().push(Block::Container(c + more, pos)),
            Block::Vertex(_) => out.push(block),
        },
        Block::Vertex(_) => match out.last() {
            Block::Container(_, _) => out.push(block),
            Block::Vertex(_) => out.push(Block::Container(Seq::empty(), 0)).push(block),
        },
    }
}

pub open spec fn normal_prefix(row: Seq<Block>) -> Seq<Block>
    decreases row.len(),
{
    if row.len() == 0 {
        seq![Block::Container(Seq::empty(), 0)]
    } else {
        normal_step(normal_prefix(row.drop_last()), row.last())
    }
}

/// The row with empty containers where vertices meet and with neighbouring containers
/// joined, so that it starts and ends with a container.
pub open spec fn normalized(row: Seq<Block>) -> Seq<Block> {
    let out = normal_prefix(row);
    if out.last() is Container {
        out
    } else {
        out.push(Block::Container(Seq::empty(), 0))
    }
}

proof fn lemma_normal_prefix(row: Seq<Block>)
    ensures
        normal_prefix(row).len() > 0,
        alternates(normal_prefix(row)),
        flat(normal_prefix(row)) == flat(row),
    decreases row.len(),
{
    let none = Block::Container(Seq::empty(), 0);
    if row.len() == 0 {
        lemma_flat_one(none);
        assert(flat(normal_prefix(row)) =~= flat(row));
    } else {
        let out = normal_prefix(row.drop_last());
        lemma_normal_prefix(row.drop_last());
        match row.last() {
            Block::Container(more, _) => {
                match out.last() {
                    Block::Container(c, pos) => {
                        lemma_flat_last(out, Block::Container(c + more, pos));
                        lemma_lanes_join(c, more);
                        assert(flat(normal_prefix(row)) =~= flat(row));
                    },
                    Block::Vertex(_) => {
                        lemma_flat_push(out, row.last());
                    },
                }
            },
            Block::Vertex(_) => {
                match out.last() {
                    Block::Container(_, _) => {
                        lemma_flat_push(out, row.last());
                    },
                    Block::Vertex(_) => {
                        lemma_flat_push(out, none);
                        lemma_flat_push(out.push(none), row.last());
                        assert(flat(normal_prefix(row)) =~= flat(row));
                    },
                }
            },
        }
    }
}

/// Normalising keeps the elements of a row and their order, and gives a normal row.
pub proof fn lemma_normalized(row: Seq<Block>)
    ensures
        is_normal(normalized(row)),
        flat(normalized(row)) == flat(row),
{
    let none = Block::Container(Seq::empty(), 0);
    lemma_normal_prefix(row);
    let out = normal_prefix(row);
    lemma_flat_push(out, none);
    assert(flat(out) + slots_of(none) =~= flat(out));
    assert(out.last() == out[out.len() - 1]);
    if out.last() is Container {
        assert((out.len() - 1) % 2 == 0);
    } else {
        assert((out.len() - 1) % 2 != 0);
    }
}

fn append(list: &mut Vec<usize>, more: &Vec<usize>)
    ensures
        final(list)@ == old(list)@ + more@,
{
    let ghost start = list@;
    for i in 0..more.len()
        invariant
            list@ == start + more@.subrange(0, i as int),
    {
        list.push(more[i]);
        assert(list@ =~= start + more@.subrange(0, i + 1));
    }
    assert(more@.subrange(0, more@.len() as int) =~= more@);
}

/// A copy of the places `lo..hi` of a list.
pub(crate) fn copy_range(list: &Vec<usize>, lo: usize, hi: usize) -> (copy: Vec<usize>)
    requires
        lo <= hi <= list@.len(),
    ensures
        copy@ == list@.subrange(lo as int, hi as int),
{
    let mut copy: Vec<usize> = Vec::new();
    for i in lo..hi
        invariant
            hi <= list@.len(),
            lo <= i,
            copy@ == list@.subrange(lo as int, i as int),
    {
        copy.push(list[i]);
        assert(copy@ =~= list@.subrange(lo as int, i + 1));
    }
    copy
}

fn copy_item(item: &Item) -> (copy: Item)
    ensures
        copy@ == item@,
{
    match item {
        Item::Vertex(id) => Item::Vertex(*id),
        Item::Container(c, pos) => {
            let copy = copy_range(c, 0, c.len());
            assert(copy@ =~= c@);
            Item::Container(copy, *pos)
        },
    }
}

/// The items of one row.
#[derive(Debug)]
pub struct Layer {
    pub items: Vec<Item>,
}

impl View for Layer {
    type V = Seq<Block>;

    open spec fn view(&self) -> Seq<Block> {
        blocks(self.items@)
    }
}

fn push_block(items: &mut Vec<Item>, item: Item)
    ensures
        blocks(final(items)@) == blocks(old(items)@).push(item@),
{
    items.push(item);
    assert(blocks(items@) =~= blocks(old(items)@).push(item@));
}

/// Adds segments to the container at the end of a row.
fn extend_last(items: &mut Vec<Item>, more: &Vec<usize>)
    requires
        old(items)@.len() > 0,
        old(items)@.last() is Container,
    ensures
        blocks(old(items)@).last() matches Block::Container(c, pos) && blocks(final(items)@)
            == blocks(old(items)@).drop_last().push(Block::Container(c + more@, pos)),
{
    let ghost before = items@;
    let last = items.pop();
    if let Some(Item::Container(mut c, pos)) = last {
        append(&mut c, more);
        items.push(Item::Container(c, pos));
        assert(blocks(items@) =~= blocks(before).drop_last().push(items@.last()@));
    }
}

fn ends_with_container(items: &Vec<Item>) -> (b: bool)
    ensures
        b == (items@.len() > 0 && items@.last() is Container),
{
    if items.len() == 0 {
        return false;
    }
    match &items[items.len() - 1] {
        Item::Container(_, _) => true,
        Item::Vertex(_) => false,
    }
}

impl Layer {
    /// A row of vertices.
    pub fn of_vertices(ids: &Vec<usize>) -> (layer: Layer)
        ensures
            layer@ == vertices(ids@),
    {
        let mut items: Vec<Item> = Vec::new();
        for i in 0..ids.len()
            invariant
                blocks(items@) == vertices(ids@.subrange(0, i as int)),
        {
            push_block(&mut items, Item::Vertex(ids[i]));
            assert(blocks(items@) =~= vertices(ids@.subrange(0, i + 1)));
        }
        assert(ids@.subrange(0, ids@.len() as int) =~= ids@);
        Layer { items }
    }

    /// A copy of the row.
    pub fn copy(&self) -> (layer: Layer)
        ensures
            layer@ == self@,
    {
        let mut items: Vec<Item> = Vec::new();
        for i in 0..self.items.len()
            invariant
                items@.len() == i,
                forall|k: int| 0 <= k < i ==> (#[trigger] items@[k])@ == self.items@[k]@,
        {
            let item = copy_item(&self.items[i]);
            items.push(item);
        }
        assert(blocks(items@) =~= self@);
        Layer { items }
    }

    /// Ensures the alternation of vertices and containers: the row starts and ends with a
    /// container and never has two consecutive vertices or containers.
    pub fn normalize(&mut self)
        ensures
            final(self)@ == normalized(old(self)@),
    {
        let ghost row = self@;
        let mut out: Vec<Item> = Vec::new();
        push_block(&mut out, Item::Container(Vec::new(), 0));
        assert(blocks(out@) =~= seq![Block::Container(Seq::empty(), 0)]);
        assert(blocks(out@) == normal_prefix(row.subrange(0, 0)));
        for i in 0..self.items.len()
            invariant
                self@ == row,
                blocks(out@) == normal_prefix(row.subrange(0, i as int)),
                out@.len() > 0,
        {
            let ghost before = blocks(out@);
            proof {
                assert(row.subrange(0, i + 1).drop_last() =~= row.subrange(0, i as int));
                assert(row[i as int] == self.items@[i as int]@);
                assert(before.last() == out@.last()@);
            }
            match &self.items[i] {
                Item::Container(more, pos) => {
                    if ends_with_container(&out) {
                        extend_last(&mut out, more);
                    } else {
                        let item = copy_item(&self.items[i]);
                        push_block(&mut out, item);
                    }
                },
                Item::Vertex(id) => {
                    if !ends_with_container(&out) {
                        push_block(&mut out, Item::Container(Vec::new(), 0));
                        assert(blocks(out@) =~= before.push(
                            Block::Container(Seq::empty(), 0),
                        ));
                    }
                    push_block(&mut out, Item::Vertex(*id));
                },
            }
            assert(blocks(out@).len() == out@.len());
            proof {
                lemma_normal_prefix(row.subrange(0, i + 1));
            }
        }
        assert(row.subrange(0, row.len() as int) =~= row);
        assert(blocks(out@).last() == out@.last()@);
        let ghost before = blocks(out@);
        if !ends_with_container(&out) {
            push_block(&mut out, Item::Container(Vec::new(), 0));
            assert(blocks(out@) =~= before.push(Block::Container(Seq::empty(), 0)));
        }
        self.items = out;
    }

    /// The elements of the row from left to right.
    pub fn flatten(&self) -> (out: Vec<Slot>)
        ensures
            out@ == flat(self@),
    {
        let mut out: Vec<Slot> = Vec::new();
        for i in 0..self.items.len()
            invariant
                out@ == flat(self@.subrange(0, i as int)),
        {
            let ghost before = out@;
            proof {
                assert(self@.subrange(0, i + 1).drop_last() =~= self@.subrange(0, i as int));
                assert(self@[i as int] == self.items@[i as int]@);
            }
            match &self.items[i] {
                Item::Vertex(id) => {
                    out.push(Slot::Vertex(*id));
                    assert(out@ =~= before + seq![Slot::Vertex(*id)]);
                },
                Item::Container(c, pos) => {
                    for k in 0..c.len()
                        invariant
                            out@ == before + lanes(c@.subrange(0, k as int)),
                    {
                        out.push(Slot::Segment(c[k]));
                        assert(out@ =~= before + lanes(c@.subrange(0, k + 1)));
                    }
                    assert(c@.subrange(0, c@.len() as int) =~= c@);
                },
            }
        }
        assert(self@.subrange(0, self@.len() as int) =~= self@);
        out
    }
}

/// A row of vertices alone.
pub open spec fn vertices(ids: Seq<usize>) -> Seq<Block> {
    ids.map_values(|id: usize| Block::Vertex(id))
}

// Sweeps.

/// The lists as plain sequences.
pub open spec fn rows_of(lists: Seq<Vec<usize>>) -> Seq<Seq<usize>> {
    lists.map_values(|list: Vec<usize>| list@)
}

/// What a sweep over the rows sees of a graph, row by row from the side where it starts.
/// `back` lists the neighbours of each vertex on that side, `ahead` those on the other.
/// Segments start at `pvertices` and end at `qvertices`.
#[derive(Clone, Copy)]
pub struct Net<'a> {
    pub back: &'a Vec<Vec<usize>>,
    pub ahead: &'a Vec<Vec<usize>>,
    pub pvertices: &'a FxHashSet<usize>,
    pub qvertices: &'a FxHashSet<usize>,
}

/// The mathematical reading of a net.
pub struct Wiring {
    pub back: Seq<Seq<usize>>,
    pub ahead: Seq<Seq<usize>>,
    pub ps: Set<usize>,
    pub qs: Set<usize>,
}

impl<'a> View for Net<'a> {
    type V = Wiring;

    open spec fn view(&self) -> Wiring {
        Wiring {
            back: rows_of(self.back@),
            ahead: rows_of(self.ahead@),
            ps: self.pvertices@,
            qs: self.qvertices@,
        }
    }
}

impl Wiring {
    /// What a sweep in the other direction sees.
    pub open spec fn flipped(self) -> Wiring {
        Wiring { back: self.ahead, ahead: self.back, ps: self.qs, qs: self.ps }
    }

    /// The vertex on the far end of the segment that starts at `id`.
    pub open spec fn far(self, id: usize) -> usize {
        self.ahead[id as int][0]
    }

    /// A vertex where a segment starts becomes the segment.
    pub open spec fn absorbed_slot(self, slot: Slot) -> Slot {
        match slot {
            Slot::Vertex(id) => if self.ps.contains(id) {
                Slot::Segment(self.far(id))
            } else {
                slot
            },
            Slot::Segment(_) => slot,
        }
    }

    pub open spec fn absorb_step(self, out: Seq<Block>, block: Block) -> Seq<Block> {
        match block {
            Block::Container(more, _) => match out.last() {
                Block::Container(c, pos) => if out.len() > 0 {
                    out.drop_last().push(Block::Container(c + more, pos))
                } else {
                    out.push(block)
                },
                Block::Vertex(_) => out.push(block),
            },
            Block::Vertex(id) => if self.ps.contains(id) {
                match out.last() {
                    Block::Container(c, pos) => out.drop_last().push(
                        Block::Container(c + seq![self.far(id)], pos),
                    ),
                    Block::Vertex(_) => out,
                }
            } else {
                out.push(block)
            },
        }
    }

    /// The row with each vertex where a segment starts in the container before it.
    pub open spec fn absorbed(self, row: Seq<Block>) -> Seq<Block>
        decreases row.len(),
    {
        if row.len() == 0 {
            Seq::empty()
        } else {
            self.absorb_step(self.absorbed(row.drop_last()), row.last())
        }
    }

    /// Vertices where segments start have a far end.
    pub open spec fn starts_lead_on(self, row: Seq<Block>) -> bool {
        forall|i: int|
            0 <= i < row.len() ==> match #[trigger] row[i] {
                Block::Vertex(id) => self.ps.contains(id) ==> id < self.ahead.len()
                    && self.ahead[id as int].len() > 0,
                Block::Container(_, _) => true,
            }
    }
}

/// Absorbing keeps the places of a row: only vertices where segments start become lanes.
pub proof fn lemma_absorbed(net: Wiring, row: Seq<Block>)
    requires
        alternates(row),
    ensures
        alternates(net.absorbed(row)),
        row.len() > 0 ==> net.absorbed(row).len() > 0,
        row.len() % 2 == 1 ==> net.absorbed(row).last() is Container,
        flat(net.absorbed(row)) == flat(row).map_values(|slot: Slot| net.absorbed_slot(slot)),
    decreases row.len(),
{
    let f = |slot: Slot| net.absorbed_slot(slot);
    if row.len() == 0 {
        assert(flat(net.absorbed(row)) =~= flat(row).map_values(f));
    } else {
        let shorter = row.drop_last();
        assert forall|i: int| 0 <= i < shorter.len() implies ((#[trigger] shorter[i] is Container)
            <==> i % 2 == 0) by {
            assert(shorter[i] == row[i]);
        }
        lemma_absorbed(net, shorter);
        let out = net.absorbed(shorter);
        let last = row.len() - 1;
        assert(row[last] is Container <==> last % 2 == 0);
        if out.len() > 0 {
            assert(out[out.len() - 1] is Container <==> (out.len() - 1) % 2 == 0);
        }
        match row.last() {
            Block::Container(more, _) => {
                match out.last() {
                    Block::Container(c, pos) => {
                        if out.len() > 0 {
                            lemma_flat_last(out, Block::Container(c + more, pos));
                            lemma_lanes_join(c, more);
                        } else {
                            lemma_flat_push(out, row.last());
                        }
                    },
                    Block::Vertex(_) => {
                        lemma_flat_push(out, row.last());
                    },
                }
                assert(lanes(more).map_values(f) =~= lanes(more));
            },
            Block::Vertex(id) => {
                assert(slots_of(row.last()) =~= seq![Slot::Vertex(id)]);
                if net.ps.contains(id) {
                    match out.last() {
                        Block::Container(c, pos) => {
                            let far = seq![net.far(id)];
                            lemma_flat_last(out, Block::Container(c + far, pos));
                            lemma_lanes_join(c, far);
                            assert(lanes(far) =~= seq![f(Slot::Vertex(id))]);
                        },
                        Block::Vertex(_) => {},
                    }
                } else {
                    lemma_flat_push(out, row.last());
                }
                assert(seq![Slot::Vertex(id)].map_values(f) =~= seq![f(Slot::Vertex(id))]);
            },
        }
        assert(flat(row).map_values(f) =~= flat(shorter).map_values(f) + slots_of(
            row.last(),
        ).map_values(f));
        assert(flat(net.absorbed(row)) =~= flat(row).map_values(f));
    }
}

impl<'a> Net<'a> {
    pub(crate) fn is_p(&self, id: usize) -> (b: bool)
        ensures
            b == self@.ps.contains(id),
    {
        fx::set_contains(self.pvertices, id)
    }

    pub(crate) fn is_q(&self, id: usize) -> (b: bool)
        ensures
            b == self@.qs.contains(id),
    {
        fx::set_contains(self.qvertices, id)
    }

    /// Converts each vertex where a segment starts into a segment in the preceding
    /// container.
    pub fn absorb_p(&self, layer: &mut Layer)
        requires
            is_normal(old(layer)@),
            self@.starts_lead_on(old(layer)@),
        ensures
            final(layer)@ == self@.absorbed(old(layer)@),
    {
        let ghost row = layer@;
        let mut out: Vec<Item> = Vec::new();
        assert(blocks(out@) =~= self@.absorbed(row.subrange(0, 0)));
        for i in 0..layer.items.len()
            invariant
                layer@ == row,
                is_normal(row),
                self@.starts_lead_on(row),
                blocks(out@) == self@.absorbed(row.subrange(0, i as int)),
        {
            let ghost done = row.subrange(0, i as int);
            proof {
                assert(row.subrange(0, i + 1).drop_last() =~= done);
                assert forall|k: int| 0 <= k < done.len() implies ((#[trigger] done[k] is Container)
                    <==> k % 2 == 0) by {
                    assert(done[k] == row[k]);
                }
                lemma_absorbed(self@, done);
                assert(row[i as int] == layer.items@[i as int]@);
                assert(blocks(out@).len() == out@.len());
                if out@.len() > 0 {
                    assert(blocks(out@).last() == out@.last()@);
                }
            }
            match &layer.items[i] {
                Item::Container(more, pos) => {
                    if ends_with_container(&out) {
                        extend_last(&mut out, more);
                    } else {
                        let item = copy_item(&layer.items[i]);
                        push_block(&mut out, item);
                    }
                },
                Item::Vertex(id) => {
                    if self.is_p(*id) {
                        let far: usize = self.ahead[*id][0];
                        let mut more: Vec<usize> = Vec::new();
                        more.push(far);
                        assert(more@ =~= seq![self@.far(*id)]);
                        extend_last(&mut out, &more);
                    } else {
                        push_block(&mut out, Item::Vertex(*id));
                    }
                },
            }
        }
        assert(row.subrange(0, row.len() as int) =~= row);
        layer.items = out;
    }
}

// Positions.

/// The row with the position of the first segment of each container.
pub open spec fn placed(row: Seq<Block>) -> Seq<Block> {
    Seq::new(
        row.len(),
        |i: int|
            match row[i] {
                Block::Container(c, _) => Block::Container(c, flat(row.take(i)).len() as int),
                Block::Vertex(id) => Block::Vertex(id),
            },
    )
}

/// The orders with the position of each vertex of a row.
pub open spec fn seated(row: Seq<Block>, orders: Seq<usize>) -> Seq<usize>
    decreases row.len(),
{
    if row.len() == 0 {
        orders
    } else {
        let before = seated(row.drop_last(), orders);
        match row.last() {
            Block::Vertex(id) => if id < orders.len() {
                before.update(id as int, flat(row.drop_last()).len() as usize)
            } else {
                before
            },
            Block::Container(_, _) => before,
        }
    }
}

/// All vertices of a row have a place among `n` orders.
pub open spec fn has_room(row: Seq<Slot>, n: nat) -> bool {
    forall|i: int|
        0 <= i < row.len() ==> match #[trigger] row[i] {
            Slot::Vertex(id) => id < n,
            Slot::Segment(_) => true,
        }
}

/// Rows with the same elements block by block.
proof fn lemma_flat_alike(a: Seq<Block>, b: Seq<Block>)
    requires
        a.len() == b.len(),
        forall|i: int| 0 <= i < a.len() ==> slots_of(#[trigger] a[i]) == slots_of(b[i]),
    ensures
        flat(a) == flat(b),
    decreases a.len(),
{
    if a.len() > 0 {
        assert forall|i: int| 0 <= i < a.drop_last().len() implies slots_of(
            #[trigger] a.drop_last()[i],
        ) == slots_of(b.drop_last()[i]) by {
            assert(slots_of(a[i]) == slots_of(b[i]));
        }
        lemma_flat_alike(a.drop_last(), b.drop_last());
        assert(slots_of(a[a.len() - 1]) == slots_of(b[b.len() - 1]));
    }
}

/// Positions change neither the elements of a row nor its form, and are settled at once.
pub proof fn lemma_placed(row: Seq<Block>)
    ensures
        flat(placed(row)) == flat(row),
        is_normal(row) ==> is_normal(placed(row)),
        alternates(row) ==> alternates(placed(row)),
        placed(placed(row)) == placed(row),
        forall|i: int|
            #![trigger placed(row)[i]]
            0 <= i < row.len() ==> match placed(row)[i] {
                Block::Container(c, pos) => 0 <= pos && pos + c.len() <= flat(row).len(),
                Block::Vertex(_) => true,
            },
{
    let p = placed(row);
    lemma_flat_alike(row, p);
    if alternates(row) {
        assert forall|i: int| 0 <= i < p.len() implies ((#[trigger] p[i] is Container) <==> i % 2
            == 0) by {
            assert(row[i] is Container <==> i % 2 == 0);
        }
    }
    assert forall|i: int| 0 <= i < row.len() implies placed(p)[i] == p[i] by {
        let (a, b) = (row.take(i), p.take(i));
        assert forall|k: int| 0 <= k < a.len() implies slots_of(#[trigger] a[k]) == slots_of(
            b[k],
        ) by {
            assert(a[k] == row[k] && b[k] == p[k]);
        }
        lemma_flat_alike(a, b);
    }
    assert(placed(p) =~= p);
    assert forall|i: int|
        #![trigger p[i]]
        0 <= i < row.len() implies match p[i] {
        Block::Container(c, pos) => 0 <= pos && pos + c.len() <= flat(row).len(),
        Block::Vertex(_) => true,
    } by {
        lemma_prefix_length(row, i);
    }
}

/// A part of a row and the block behind it fit into the row.
pub proof fn lemma_prefix_length(row: Seq<Block>, i: int)
    requires
        0 <= i < row.len(),
    ensures
        flat(row.take(i)).len() + slots_of(row[i]).len() <= flat(row).len(),
        flat(row.take(i + 1)) == flat(row.take(i)) + slots_of(row[i]),
{
    assert(row =~= row.take(i + 1) + row.skip(i + 1));
    lemma_flat_join(row.take(i + 1), row.skip(i + 1));
    assert(row.take(i + 1).drop_last() =~= row.take(i));
}

/// Where a block stands in the elements of its row.
pub proof fn lemma_block_slots(row: Seq<Block>, i: int, k: int)
    requires
        0 <= i < row.len(),
        0 <= k < slots_of(row[i]).len(),
    ensures
        flat(row.take(i)).len() + k < flat(row).len(),
        flat(row)[flat(row.take(i)).len() + k] == slots_of(row[i])[k],
{
    assert(row =~= row.take(i + 1) + row.skip(i + 1));
    lemma_flat_join(row.take(i + 1), row.skip(i + 1));
    assert(row.take(i + 1).drop_last() =~= row.take(i));
}

/// Whether a row holds a vertex.
pub open spec fn seats(row: Seq<Block>, id: usize) -> bool {
    exists|i: int| 0 <= i < row.len() && #[trigger] row[i] == Block::Vertex(id)
}

/// A vertex is a vertex of a row if it is among the elements.
pub proof fn lemma_seats(row: Seq<Block>, id: usize)
    ensures
        seats(row, id) == flat(row).contains(Slot::Vertex(id)),
    decreases row.len(),
{
    if row.len() > 0 {
        let shorter = row.drop_last();
        lemma_seats(shorter, id);
        if seats(row, id) {
            let i = choose|i: int| 0 <= i < row.len() && #[trigger] row[i] == Block::Vertex(id);
            lemma_block_slots(row, i, 0);
        }
        if flat(row).contains(Slot::Vertex(id)) {
            let k = choose|k: int| 0 <= k < flat(row).len() && flat(row)[k] == Slot::Vertex(id);
            if k < flat(shorter).len() {
                assert(flat(shorter)[k] == Slot::Vertex(id));
                let i = choose|i: int|
                    0 <= i < shorter.len() && #[trigger] shorter[i] == Block::Vertex(id);
                assert(row[i] == Block::Vertex(id));
            } else {
                assert(slots_of(row.last())[k - flat(shorter).len()] == Slot::Vertex(id));
                assert(row[row.len() - 1] == Block::Vertex(id));
            }
        }
    }
}

/// Seating keeps the number of orders, and other vertices keep theirs. What else the
/// orders held before does not matter.
pub proof fn lemma_seated(row: Seq<Block>, a: Seq<usize>, b: Seq<usize>)
    requires
        a.len() == b.len(),
        a.len() <= usize::MAX,
        forall|v: usize| v < a.len() && !#[trigger] seats(row, v) ==> a[v as int] == b[v as int],
    ensures
        seated(row, a) == seated(row, b),
        seated(row, a).len() == a.len(),
        forall|v: usize|
            v < a.len() && !#[trigger] seats(row, v) ==> seated(row, a)[v as int] == a[v as int],
{
    lemma_seated_from(row, a, b);
    assert forall|v: int| 0 <= v < a.len() implies seated(row, a)[v] == seated(row, b)[v] by {
        if !seats(row, v as usize) {
            assert(a[v as usize as int] == b[v as usize as int]);
        }
    }
    assert(seated(row, a) =~= seated(row, b));
}

proof fn lemma_seated_from(row: Seq<Block>, a: Seq<usize>, b: Seq<usize>)
    requires
        a.len() == b.len(),
    ensures
        seated(row, a).len() == a.len(),
        seated(row, b).len() == b.len(),
        forall|v: usize|
            #![trigger seats(row, v)]
            v < a.len() ==> if seats(row, v) {
                seated(row, a)[v as int] == seated(row, b)[v as int]
            } else {
                seated(row, a)[v as int] == a[v as int] && seated(row, b)[v as int] == b[v as int]
            },
    decreases row.len(),
{
    if row.len() > 0 {
        let shorter = row.drop_last();
        lemma_seated_from(shorter, a, b);
        assert forall|v: usize|
            #![trigger seats(row, v)]
            v < a.len() implies if seats(row, v) {
            seated(row, a)[v as int] == seated(row, b)[v as int]
        } else {
            seated(row, a)[v as int] == a[v as int] && seated(row, b)[v as int] == b[v as int]
        } by {
            assert(seats(shorter, v) || !seats(shorter, v));
            if seats(shorter, v) {
                let i = choose|i: int|
                    0 <= i < shorter.len() && #[trigger] shorter[i] == Block::Vertex(v);
                assert(row[i] == Block::Vertex(v));
            }
            if row.last() == Block::Vertex(v) {
                assert(row[row.len() - 1] == Block::Vertex(v));
            } else if seats(row, v) {
                let i = choose|i: int| 0 <= i < row.len() && #[trigger] row[i] == Block::Vertex(v);
                assert(shorter[i] == Block::Vertex(v));
            }
        }
    }
}

/// Positions of seated vertices lie inside the row.
pub proof fn lemma_seated_bound(row: Seq<Block>, orders: Seq<usize>, bound: int)
    requires
        flat(row).len() <= bound <= usize::MAX,
        forall|v: int| 0 <= v < orders.len() ==> #[trigger] orders[v] <= bound,
    ensures
        forall|v: int| 0 <= v < orders.len() ==> #[trigger] seated(row, orders)[v] <= bound,
        seated(row, orders).len() == orders.len(),
    decreases row.len(),
{
    if row.len() > 0 {
        lemma_seated_bound(row.drop_last(), orders, bound);
    }
}

/// Assigns a running position to every item; writes the orders of vertices.
pub fn assign_container_positions(layer: &mut Layer, orders: &mut Vec<usize>)
    requires
        flat(old(layer)@).len() <= usize::MAX,
        has_room(flat(old(layer)@), old(orders)@.len()),
    ensures
        final(layer)@ == placed(old(layer)@),
        final(orders)@ == seated(old(layer)@, old(orders)@),
{
    let ghost row = layer@;
    let ghost start = orders@;
    let mut pos: usize = 0;
    let count = layer.items.len();
    assert(row.take(0) =~= Seq::empty());
    for i in 0..count
        invariant
            count == row.len(),
            layer@.len() == row.len(),
            flat(row).len() <= usize::MAX,
            has_room(flat(row), start.len()),
            orders@.len() == start.len(),
            pos == flat(row.take(i as int)).len(),
            orders@ == seated(row.take(i as int), start),
            forall|k: int| 0 <= k < i ==> #[trigger] layer@[k] == placed(row)[k],
            forall|k: int| i <= k < count ==> #[trigger] layer@[k] == row[k],
    {
        proof {
            lemma_prefix_length(row, i as int);
            assert(row.take(i + 1).drop_last() =~= row.take(i as int));
            assert(layer@[i as int] == row[i as int]);
            assert(layer.items@[i as int]@ == layer@[i as int]);
        }
        let ghost before = layer@;
        let size: usize = layer.items[i].size();
        match &mut layer.items[i] {
            Item::Container(c, parent) => {
                *parent = pos;
            },
            Item::Vertex(id) => {
                proof {
                    lemma_block_slots(row, i as int, 0);
                }
                orders[*id] = pos;
            },
        }
        assert(layer@ =~= before.update(i as int, layer@[i as int]));
        assert(layer@[i as int] == layer.items@[i as int]@);
        pos = pos + size;
    }
    assert(row.take(row.len() as int) =~= row);
    assert(layer@ =~= placed(row));
}

// Wishes.

impl Wiring {
    /// All neighbours are among `n` vertices.
    pub open spec fn is_wired(self, n: nat) -> bool {
        &&& self.back.len() == n
        &&& self.ahead.len() == n
        &&& forall|v: int, i: int|
            0 <= v < n && 0 <= i < self.back[v].len() ==> #[trigger] self.back[v][i] < n
        &&& forall|v: int, i: int|
            0 <= v < n && 0 <= i < self.ahead[v].len() ==> #[trigger] self.ahead[v][i] < n
    }

    /// Twice the desired position of a vertex: the median of the positions of its
    /// neighbours in the row before.
    pub open spec fn wish(self, orders: Seq<usize>, id: usize) -> int {
        let near = self.back[id as int];
        let found = sorted_pairs(with_orders(near, orders));
        let middle = near.len() as int / 2;
        if near.len() == 0 {
            2 * orders[id as int]
        } else if near.len() % 2 == 0 {
            found[middle - 1].0 + found[middle].0
        } else {
            2 * found[middle].0
        }
    }

    /// The wishes of the vertices of a row that end no segment, in the order of the list.
    pub open spec fn wishes(self, orders: Seq<usize>, child: Seq<usize>) -> Seq<(usize, usize)>
        decreases child.len(),
    {
        if child.len() == 0 {
            Seq::empty()
        } else {
            let before = self.wishes(orders, child.drop_last());
            if self.qs.contains(child.last()) {
                before
            } else {
                before.push((self.wish(orders, child.last()) as usize, child.last()))
            }
        }
    }

    /// The vertices of a row that end no segment, each with its order.
    pub open spec fn free_orders(self, orders: Seq<usize>, child: Seq<usize>) -> Seq<(usize, usize)>
        decreases child.len(),
    {
        if child.len() == 0 {
            Seq::empty()
        } else {
            let before = self.free_orders(orders, child.drop_last());
            if self.qs.contains(child.last()) {
                before
            } else {
                before.push(((2 * orders[child.last() as int]) as usize, child.last()))
            }
        }
    }
}

/// Identifiers with their orders.
pub open spec fn with_orders(ids: Seq<usize>, orders: Seq<usize>) -> Seq<(usize, usize)> {
    Seq::new(ids.len(), |i: int| (orders[ids[i] as int], ids[i]))
}

/// Pairs each identifier with its order.
pub(crate) fn pair_orders(ids: &Vec<usize>, orders: &Vec<usize>) -> (pairs: Vec<(usize, usize)>)
    requires
        forall|i: int| 0 <= i < ids@.len() ==> #[trigger] ids@[i] < orders@.len(),
    ensures
        pairs@ == with_orders(ids@, orders@),
{
    let mut pairs: Vec<(usize, usize)> = Vec::new();
    for i in 0..ids.len()
        invariant
            forall|i: int| 0 <= i < ids@.len() ==> #[trigger] ids@[i] < orders@.len(),
            pairs@ == with_orders(ids@, orders@).take(i as int),
    {
        assert(ids@[i as int] < orders@.len());
        pairs.push((orders[ids[i]], ids[i]));
        assert(pairs@ =~= with_orders(ids@, orders@).take(i + 1));
    }
    assert(pairs@ =~= with_orders(ids@, orders@));
    pairs
}

impl<'a> Net<'a> {
    /// Twice the desired position (median of neighbour positions) of a vertex.
    fn wish(&self, orders: &Vec<usize>, id: usize) -> (w: usize)
        requires
            self@.is_wired(orders@.len()),
            id < orders@.len(),
            forall|v: int| 0 <= v < orders@.len() ==> 2 * #[trigger] orders@[v] <= usize::MAX,
        ensures
            w == self@.wish(orders@, id),
    {
        let near = &self.back[id];
        assert(near@ == self@.back[id as int]);
        if near.len() == 0 {
            return 2 * orders[id];
        }
        assert forall|i: int| 0 <= i < near@.len() implies #[trigger] near@[i] < orders@.len() by {
            assert(self@.back[id as int][i] < orders@.len());
        }
        let pairs = pair_orders(near, orders);
        let found = sort_pairs(&pairs);
        proof {
            crate::sorting::lemma_pairs_are_sorted(pairs@);
            assert forall|k: int| 0 <= k < found@.len() implies 2 * (#[trigger] found@[k]).0
                <= usize::MAX by {
                broadcast use vstd::seq_lib::group_to_multiset_ensures;

                assert(found@.contains(found@[k]));
                assert(found@.to_multiset().count(found@[k]) > 0);
                assert(pairs@.contains(found@[k]));
                let i = choose|i: int| 0 <= i < pairs@.len() && pairs@[i] == found@[k];
                assert(near@[i] < orders@.len());
                assert(2 * orders@[near@[i] as int] <= usize::MAX);
            }
        }
        let middle: usize = near.len() / 2;
        assert(2 * found@[middle as int].0 <= usize::MAX);
        if near.len() % 2 == 0 {
            assert(2 * found@[middle - 1].0 <= usize::MAX);
            found[middle - 1].0 + found[middle].0
        } else {
            2 * found[middle].0
        }
    }

    /// The desired positions of the vertices of a row that end no segment, ascending.
    pub fn compute_wishes(&self, orders: &Vec<usize>, child: &Vec<usize>) -> (nodes: Vec<
        (usize, usize),
    >)
        requires
            self@.is_wired(orders@.len()),
            forall|i: int| 0 <= i < child@.len() ==> #[trigger] child@[i] < orders@.len(),
            forall|v: int| 0 <= v < orders@.len() ==> 2 * #[trigger] orders@[v] <= usize::MAX,
        ensures
            nodes@ == sorted_pairs(self@.wishes(orders@, child@)),
    {
        let mut list: Vec<(usize, usize)> = Vec::new();
        for i in 0..child.len()
            invariant
                self@.is_wired(orders@.len()),
                forall|i: int| 0 <= i < child@.len() ==> #[trigger] child@[i] < orders@.len(),
                forall|v: int| 0 <= v < orders@.len() ==> 2 * #[trigger] orders@[v] <= usize::MAX,
                list@ == self@.wishes(orders@, child@.take(i as int)),
        {
            let id: usize = child[i];
            assert(child@[i as int] < orders@.len());
            assert(child@.take(i + 1).drop_last() =~= child@.take(i as int));
            if !self.is_q(id) {
                let w: usize = self.wish(orders, id);
                list.push((w, id));
            }
        }
        assert(child@.take(child@.len() as int) =~= child@);
        sort_pairs(&list)
    }

    /// The vertices of a row that end no segment, by their orders.
    pub fn order_wishes(&self, orders: &Vec<usize>, child: &Vec<usize>) -> (nodes: Vec<
        (usize, usize),
    >)
        requires
            forall|i: int| 0 <= i < child@.len() ==> #[trigger] child@[i] < orders@.len(),
            forall|v: int| 0 <= v < orders@.len() ==> 2 * #[trigger] orders@[v] <= usize::MAX,
        ensures
            nodes@ == sorted_pairs(self@.free_orders(orders@, child@)),
    {
        let mut list: Vec<(usize, usize)> = Vec::new();
        for i in 0..child.len()
            invariant
                forall|i: int| 0 <= i < child@.len() ==> #[trigger] child@[i] < orders@.len(),
                forall|v: int| 0 <= v < orders@.len() ==> 2 * #[trigger] orders@[v] <= usize::MAX,
                list@ == self@.free_orders(orders@, child@.take(i as int)),
        {
            let id: usize = child[i];
            assert(child@[i as int] < orders@.len());
            assert(child@.take(i + 1).drop_last() =~= child@.take(i as int));
            if !self.is_q(id) {
                assert(2 * orders@[id as int] <= usize::MAX);
                list.push((2 * orders[id], id));
            }
        }
        assert(child@.take(child@.len() as int) =~= child@);
        sort_pairs(&list)
    }
}

// Merging.

/// The row from a place on.
pub open spec fn rest(row: Seq<Block>, i: int) -> Seq<Block> {
    if i < row.len() {
        row.skip(i)
    } else {
        Seq::empty()
    }
}

/// The containers of a row with vertices merged between and into them by position. Each
/// vertex comes with twice its position. The vertices that stood in the row are left out.
pub open spec fn merged(row: Seq<Block>, nodes: Seq<(usize, usize)>) -> Seq<Block>
    decreases row.len() + nodes.len(),
{
    if row.len() == 0 || row[0] is Vertex {
        if nodes.len() == 0 {
            Seq::empty()
        } else {
            seq![Block::Vertex(nodes[0].1)] + merged(row, nodes.skip(1))
        }
    } else {
        let c = row[0]->Container_0;
        let pos = row[0]->Container_1;
        if c.len() == 0 {
            merged(rest(row, 2), nodes)
        } else if nodes.len() == 0 {
            seq![row[0]] + merged(rest(row, 2), nodes)
        } else if nodes[0].0 <= 2 * pos {
            seq![Block::Vertex(nodes[0].1)] + merged(row, nodes.skip(1))
        } else if nodes[0].0 >= 2 * (pos + c.len() - 1) {
            seq![row[0]] + merged(rest(row, 2), nodes)
        } else {
            let k = (nodes[0].0 - 2 * pos) / 2;
            seq![Block::Container(c.take(k), pos), Block::Vertex(nodes[0].1)] + merged(
                row.update(0, Block::Container(c.skip(k), pos + k)),
                nodes.skip(1),
            )
        }
    }
}

/// Containers end at small positions.
pub open spec fn has_small_positions(row: Seq<Block>) -> bool {
    forall|i: int|
        0 <= i < row.len() ==> match #[trigger] row[i] {
            Block::Container(c, pos) => 0 <= pos && 2 * (pos + c.len()) <= usize::MAX,
            Block::Vertex(_) => true,
        }
}

/// The vertices of a list of wishes.
pub open spec fn wished(nodes: Seq<(usize, usize)>) -> Seq<usize> {
    nodes.map_values(|node: (usize, usize)| node.1)
}

pub open spec fn vertex_slots(ids: Seq<usize>) -> Seq<Slot> {
    ids.map_values(|id: usize| Slot::Vertex(id))
}

/// How often an element stands in a row.
pub open spec fn times(row: Seq<Slot>, slot: Slot) -> nat {
    row.to_multiset().count(slot)
}

pub proof fn lemma_times_join(a: Seq<Slot>, b: Seq<Slot>, slot: Slot)
    ensures
        times(a + b, slot) == times(a, slot) + times(b, slot),
{
    lemma_multiset_commutative(a, b);
}

pub proof fn lemma_times_vertex(id: usize, slot: Slot)
    ensures
        times(seq![Slot::Vertex(id)], slot) == if slot == Slot::Vertex(id) {
            1nat
        } else {
            0nat
        },
{
    broadcast use vstd::seq_lib::group_to_multiset_ensures;

    assert(seq![Slot::Vertex(id)] =~= Seq::<Slot>::empty().push(Slot::Vertex(id)));
    assert(Seq::<Slot>::empty().to_multiset().count(slot) == 0) by {
        assert(!Seq::<Slot>::empty().contains(slot));
    }
}

pub proof fn lemma_times_lanes(c: Seq<usize>, slot: Slot)
    requires
        slot is Vertex,
    ensures
        times(lanes(c), slot) == 0,
{
    broadcast use vstd::seq_lib::group_to_multiset_ensures;

    assert(!lanes(c).contains(slot));
}

/// A merge keeps each segment of the row and places each vertex once.
#[verifier::rlimit(40)]
pub proof fn lemma_merged(row: Seq<Block>, nodes: Seq<(usize, usize)>, slot: Slot)
    requires
        alternates(row),
    ensures
        times(flat(merged(row, nodes)), slot) == match slot {
            Slot::Vertex(_) => times(vertex_slots(wished(nodes)), slot),
            Slot::Segment(_) => times(flat(row), slot),
        },
    decreases row.len() + nodes.len(),
{
    broadcast use vstd::seq_lib::group_to_multiset_ensures;

    let out = merged(row, nodes);
    let places = vertex_slots(wished(nodes));
    if nodes.len() > 0 {
        let first = seq![Slot::Vertex(nodes[0].1)];
        assert(places =~= first + vertex_slots(wished(nodes.skip(1))));
        lemma_times_join(first, vertex_slots(wished(nodes.skip(1))), slot);
        lemma_times_vertex(nodes[0].1, slot);
        lemma_flat_one(Block::Vertex(nodes[0].1));
    } else {
        assert(!places.contains(slot));
    }
    if row.len() == 0 || row[0] is Vertex {
        if row.len() > 0 {
            assert(0int % 2 == 0);
        }
        if nodes.len() == 0 {
            assert(!flat(out).contains(slot));
            assert(!flat(row).contains(slot));
        } else {
            lemma_merged(row, nodes.skip(1), slot);
            lemma_flat_join(seq![Block::Vertex(nodes[0].1)], merged(row, nodes.skip(1)));
            lemma_times_join(
                flat(seq![Block::Vertex(nodes[0].1)]),
                flat(merged(row, nodes.skip(1))),
                slot,
            );
        }
    } else {
        let c = row[0]->Container_0;
        let pos = row[0]->Container_1;
        let next = rest(row, 2);
        assert forall|i: int| 0 <= i < next.len() implies ((#[trigger] next[i] is Container) <==> i
            % 2 == 0) by {
            assert(next[i] == row[i + 2]);
        }
        // The segments of the row are those of its first container and of the rest.
        lemma_flat_one(row[0]);
        if row.len() > 1 {
            assert(row[1] is Vertex);
            lemma_flat_one(row[1]);
            assert(row =~= seq![row[0]] + (seq![row[1]] + next));
            lemma_flat_join(seq![row[1]], next);
            lemma_flat_join(seq![row[0]], seq![row[1]] + next);
            lemma_times_join(slots_of(row[0]), flat(seq![row[1]] + next), slot);
            lemma_times_join(slots_of(row[1]), flat(next), slot);
            lemma_times_vertex(row[1]->Vertex_0, slot);
        } else {
            assert(row =~= seq![row[0]] + next);
            lemma_flat_join(seq![row[0]], next);
            lemma_times_join(slots_of(row[0]), flat(next), slot);
        }
        if slot is Vertex {
            lemma_times_lanes(c, slot);
        }
        if c.len() == 0 {
            lemma_merged(next, nodes, slot);
            assert(!lanes(c).contains(slot));
        } else if nodes.len() == 0 || (nodes[0].0 > 2 * pos && nodes[0].0 >= 2 * (pos + c.len()
            - 1)) {
            lemma_merged(next, nodes, slot);
            lemma_flat_join(seq![row[0]], merged(next, nodes));
            lemma_times_join(slots_of(row[0]), flat(merged(next, nodes)), slot);
        } else if nodes[0].0 <= 2 * pos {
            lemma_merged(row, nodes.skip(1), slot);
            lemma_flat_join(seq![Block::Vertex(nodes[0].1)], merged(row, nodes.skip(1)));
            lemma_times_join(
                flat(seq![Block::Vertex(nodes[0].1)]),
                flat(merged(row, nodes.skip(1))),
                slot,
            );
        } else {
            let k = (nodes[0].0 - 2 * pos) / 2;
            let left = Block::Container(c.take(k), pos);
            let right = Block::Container(c.skip(k), pos + k);
            let node = Block::Vertex(nodes[0].1);
            let more = row.update(0, right);
            assert forall|i: int| 0 <= i < more.len() implies ((#[trigger] more[i] is Container)
                <==> i % 2 == 0) by {
                assert(row[i] is Container <==> i % 2 == 0);
            }
            lemma_merged(more, nodes.skip(1), slot);
            assert(seq![left, node] =~= seq![left] + seq![node]);
            lemma_flat_one(left);
            lemma_flat_join(seq![left], seq![node]);
            lemma_flat_join(seq![left, node], merged(more, nodes.skip(1)));
            lemma_times_join(slots_of(left), slots_of(node), slot);
            lemma_times_join(flat(seq![left, node]), flat(merged(more, nodes.skip(1))), slot);
            // The two parts of the container together are the container.
            lemma_flat_one(right);
            let tail = row.skip(1);
            assert(row =~= seq![row[0]] + tail);
            assert(more =~= seq![right] + tail);
            lemma_flat_join(seq![row[0]], tail);
            lemma_flat_join(seq![right], tail);
            lemma_times_join(slots_of(row[0]), flat(tail), slot);
            lemma_times_join(slots_of(right), flat(tail), slot);
            assert(c =~= c.take(k) + c.skip(k));
            lemma_lanes_join(c.take(k), c.skip(k));
            lemma_times_join(lanes(c.take(k)), lanes(c.skip(k)), slot);
            if slot is Vertex {
                lemma_times_lanes(c.take(k), slot);
            }
        }
    }
}

/// Merges vertices into the containers of a row by position.
#[verifier::rlimit(40)]
pub fn merge(parent: Layer, nodes: &Vec<(usize, usize)>) -> (res: Layer)
    requires
        has_small_positions(parent@),
    ensures
        res@ == merged(parent@, nodes@),
{
    let ghost row = parent@;
    let mut parent = parent;
    let mut set_idx: usize = 0;
    let mut node_idx: usize = 0;
    let mut res: Vec<Item> = Vec::new();
    assert(rest(row, 0) =~= row);
    assert(nodes@.skip(0) =~= nodes@);
    assert(blocks(res@) + merged(row, nodes@) =~= merged(row, nodes@));
    loop
        invariant
            parent@.len() == row.len(),
            has_small_positions(parent@),
            set_idx <= row.len(),
            node_idx <= nodes@.len(),
            blocks(res@) + merged(rest(parent@, set_idx as int), nodes@.skip(node_idx as int))
                == merged(row, nodes@),
        ensures
            blocks(res@) == merged(row, nodes@),
        decreases row.len() - set_idx + nodes@.len() - node_idx,
    {
        let ghost now = rest(parent@, set_idx as int);
        let ghost left_over = nodes@.skip(node_idx as int);
        let ghost done = blocks(res@);
        assert(nodes@.skip(node_idx + 1) =~= left_over.skip(1) || node_idx == nodes@.len());
        assert(parent.items@.len() == parent@.len());
        let mut is_set: bool = false;
        if set_idx < parent.items.len() {
            assert(parent.items@[set_idx as int]@ == parent@[set_idx as int]);
            assert(now[0] == parent@[set_idx as int]);
            is_set = match &parent.items[set_idx] {
                Item::Container(_, _) => true,
                Item::Vertex(_) => false,
            };
        }
        let next_set: usize = if parent.items.len() - set_idx > 2 {
            set_idx + 2
        } else {
            parent.items.len()
        };
        if !is_set {
            if node_idx < nodes.len() {
                assert(left_over[0] == nodes@[node_idx as int]);
                push_block(&mut res, Item::Vertex(nodes[node_idx].1));
                node_idx = node_idx + 1;
                assert(blocks(res@) + merged(now, left_over.skip(1)) =~= done + merged(
                    now,
                    left_over,
                ));
            } else {
                assert(blocks(res@) =~= merged(row, nodes@));
                break;
            }
        } else if let Item::Container(c, pos) = &parent.items[set_idx] {
            let pos: usize = *pos;
            assert(now[0] == Block::Container(c@, pos as int));
            assert(rest(parent@, next_set as int) =~= rest(now, 2));
            if c.len() == 0 {
                set_idx = next_set;
            } else if node_idx < nodes.len() && nodes[node_idx].0 <= 2 * pos {
                assert(left_over[0] == nodes@[node_idx as int]);
                push_block(&mut res, Item::Vertex(nodes[node_idx].1));
                node_idx = node_idx + 1;
                assert(blocks(res@) + merged(now, left_over.skip(1)) =~= done + merged(
                    now,
                    left_over,
                ));
            } else if node_idx == nodes.len() || nodes[node_idx].0 >= 2 * (pos + c.len() - 1) {
                proof {
                    if node_idx < nodes@.len() {
                        assert(left_over[0] == nodes@[node_idx as int]);
                    }
                }
                let item = copy_item(&parent.items[set_idx]);
                push_block(&mut res, item);
                set_idx = next_set;
                assert(blocks(res@) + merged(rest(now, 2), left_over) =~= done + merged(
                    now,
                    left_over,
                ));
            } else {
                assert(left_over[0] == nodes@[node_idx as int]);
                let k: usize = (nodes[node_idx].0 - 2 * pos) / 2;
                let left = copy_range(c, 0, k);
                let right = copy_range(c, k, c.len());
                let ghost front = c@;
                proof {
                    assert(left@ =~= front.take(k as int));
                    assert(right@ =~= front.skip(k as int));
                }
                push_block(&mut res, Item::Container(left, pos));
                push_block(&mut res, Item::Vertex(nodes[node_idx].1));
                node_idx = node_idx + 1;
                let ghost before = parent@;
                let ghost block = Block::Container(front.skip(k as int), pos + k);
                parent.items[set_idx] = Item::Container(right, pos + k);
                proof {
                    assert(parent@ =~= before.update(set_idx as int, block));
                    assert(rest(parent@, set_idx as int) =~= now.update(0, block));
                    let two = seq![
                        Block::Container(front.take(k as int), pos as int),
                        Block::Vertex(left_over[0].1),
                    ];
                    assert(blocks(res@) =~= done + two);
                    assert(blocks(res@) + merged(now.update(0, block), left_over.skip(1)) =~= done
                        + (two + merged(now.update(0, block), left_over.skip(1))));
                }
            }
        }
    }
    Layer { items: res }
}

// Extraction.

/// The segment of `id` is the one at place `at` of the container at place `i`.
pub open spec fn is_lane_of(row: Seq<Block>, i: int, at: int, id: usize) -> bool {
    &&& 0 <= i < row.len()
    &&& row[i] is Container
    &&& 0 <= at < row[i]->Container_0.len()
    &&& row[i]->Container_0[at] == id
}

/// The first container that holds the segment of `id`, and the first place in it.
pub open spec fn is_first_lane_of(row: Seq<Block>, i: int, at: int, id: usize) -> bool {
    &&& is_lane_of(row, i, at, id)
    &&& forall|j: int, k: int| #[trigger]
        is_lane_of(row, j, k, id) ==> i < j || i == j && at <= k
}

/// The row with the container at place `i` split by the vertex of its segment at place
/// `at`.
pub open spec fn split_at(row: Seq<Block>, i: int, at: int) -> Seq<Block> {
    let c = row[i]->Container_0;
    let pos = row[i]->Container_1;
    row.take(i) + seq![
        Block::Container(c.take(at), pos),
        Block::Vertex(c[at]),
        Block::Container(c.skip(at + 1), pos + at + 1),
    ] + row.skip(i + 1)
}

/// The row with the segment of `id` ended by its vertex.
pub open spec fn extracted_one(row: Seq<Block>, id: usize) -> Seq<Block> {
    let place = choose|place: (int, int)| #[trigger] is_first_lane_of(row, place.0, place.1, id);
    split_at(row, place.0, place.1)
}

impl Wiring {
    /// The row with the segments ended that end at vertices of `child`.
    pub open spec fn extracted(self, row: Seq<Block>, child: Seq<usize>) -> Seq<Block>
        decreases child.len(),
    {
        if child.len() == 0 {
            row
        } else {
            let before = self.extracted(row, child.drop_last());
            if self.qs.contains(child.last()) {
                extracted_one(before, child.last())
            } else {
                before
            }
        }
    }

    /// The elements of a row after the segments are ended that end at vertices of `child`.
    pub open spec fn ended_slot(self, child: Seq<usize>, slot: Slot) -> Slot {
        match slot {
            Slot::Segment(id) => if self.qs.contains(id) && child.contains(id) {
                Slot::Vertex(id)
            } else {
                slot
            },
            Slot::Vertex(_) => slot,
        }
    }
}

/// A first lane is the only first lane.
pub proof fn lemma_extracted_at(row: Seq<Block>, i: int, at: int, id: usize)
    requires
        is_first_lane_of(row, i, at, id),
    ensures
        extracted_one(row, id) == split_at(row, i, at),
{
    let place = choose|place: (int, int)| #[trigger] is_first_lane_of(row, place.0, place.1, id);
    assert(is_first_lane_of(row, (i, at).0, (i, at).1, id));
    assert(is_lane_of(row, place.0, place.1, id));
    assert(is_lane_of(row, i, at, id));
}

/// Splitting a container puts the vertex in the place of its segment.
pub proof fn lemma_split_at(row: Seq<Block>, i: int, at: int, id: usize)
    requires
        is_lane_of(row, i, at, id),
    ensures
        ({
            let k = flat(row.take(i)).len() + at;
            &&& 0 <= k < flat(row).len()
            &&& flat(row)[k] == Slot::Segment(id)
            &&& flat(split_at(row, i, at)) == flat(row).update(k, Slot::Vertex(id))
        }),
{
    let c = row[i]->Container_0;
    let pos = row[i]->Container_1;
    let left = Block::Container(c.take(at), pos);
    let node = Block::Vertex(id);
    let right = Block::Container(c.skip(at + 1), pos + at + 1);
    let three = seq![left, node, right];
    let (a, b) = (row.take(i), row.skip(i + 1));
    assert(row =~= a + seq![row[i]] + b);
    lemma_flat_join(a + seq![row[i]], b);
    lemma_flat_join(a, seq![row[i]]);
    lemma_flat_one(row[i]);
    lemma_flat_join(a + three, b);
    lemma_flat_join(a, three);
    assert(three =~= seq![left] + (seq![node] + seq![right]));
    lemma_flat_join(seq![left], seq![node] + seq![right]);
    lemma_flat_join(seq![node], seq![right]);
    lemma_flat_one(left);
    lemma_flat_one(node);
    lemma_flat_one(right);
    let k = flat(a).len() + at;
    assert(lanes(c)[at] == Slot::Segment(id));
    assert(flat(three) =~= lanes(c).update(at, Slot::Vertex(id)));
    assert(flat(split_at(row, i, at)) =~= flat(row).update(k, Slot::Vertex(id)));
}

/// A row whose elements hold the segment of a vertex has a first lane of it.
pub proof fn lemma_has_lane(row: Seq<Block>, id: usize)
    requires
        flat(row).contains(Slot::Segment(id)),
    ensures
        exists|i: int, at: int| is_lane_of(row, i, at, id),
    decreases row.len(),
{
    let k = choose|k: int| 0 <= k < flat(row).len() && flat(row)[k] == Slot::Segment(id);
    let shorter = row.drop_last();
    if k < flat(shorter).len() {
        assert(flat(shorter)[k] == Slot::Segment(id));
        lemma_has_lane(shorter, id);
        let (i, at) = choose|i: int, at: int| is_lane_of(shorter, i, at, id);
        assert(is_lane_of(row, i, at, id));
    } else {
        let at = k - flat(shorter).len();
        assert(slots_of(row.last())[at] == Slot::Segment(id));
        assert(is_lane_of(row, row.len() - 1, at, id));
    }
}

/// The first lane of a vertex.
fn first_lane(layer: &Layer, id: usize) -> (place: (usize, usize))
    requires
        flat(layer@).contains(Slot::Segment(id)),
    ensures
        is_first_lane_of(layer@, place.0 as int, place.1 as int, id),
{
    for i in 0..layer.items.len()
        invariant
            forall|j: int, k: int| #[trigger] is_lane_of(layer@, j, k, id) ==> i <= j,
    {
        assert(layer@[i as int] == layer.items@[i as int]@);
        match &layer.items[i] {
            Item::Container(c, pos) => {
                for at in 0..c.len()
                    invariant
                        i < layer.items@.len(),
                        layer@[i as int] == Block::Container(c@, *pos as int),
                        forall|j: int, k: int| #[trigger]
                            is_lane_of(layer@, j, k, id) ==> i < j || i == j && at <= k,
                {
                    if c[at] == id {
                        assert(is_lane_of(layer@, i as int, at as int, id));
                        return (i, at);
                    }
                }
            },
            Item::Vertex(_) => {},
        }
    }
    proof {
        lemma_has_lane(layer@, id);
        let (j, k) = choose|j: int, k: int| is_lane_of(layer@, j, k, id);
        assert(is_lane_of(layer@, j, k, id));
        assert(false);
    }
    (0, 0)
}

/// Pulls one vertex out of the container holding its segment.
fn extract_one(layer: &mut Layer, id: usize)
    requires
        flat(old(layer)@).contains(Slot::Segment(id)),
        has_small_positions(old(layer)@),
    ensures
        final(layer)@ == extracted_one(old(layer)@, id),
        has_small_positions(final(layer)@),
{
    let ghost row = layer@;
    let (i, at) = first_lane(layer, id);
    proof {
        lemma_extracted_at(row, i as int, at as int, id);
    }
    let mut out: Vec<Item> = Vec::new();
    for k in 0..i
        invariant
            layer@ == row,
            i < row.len(),
            blocks(out@) == row.take(k as int),
    {
        assert(row[k as int] == layer.items@[k as int]@);
        let item = copy_item(&layer.items[k]);
        push_block(&mut out, item);
        assert(blocks(out@) =~= row.take(k + 1));
    }
    assert(row[i as int] == layer.items@[i as int]@);
    if let Item::Container(c, pos) = &layer.items[i] {
        let left = copy_range(c, 0, at);
        let right = copy_range(c, at + 1, c.len());
        assert(left@ =~= c@.take(at as int));
        assert(right@ =~= c@.skip(at + 1));
        push_block(&mut out, Item::Container(left, *pos));
        push_block(&mut out, Item::Vertex(id));
        push_block(&mut out, Item::Container(right, *pos + at + 1));
    }
    let ghost front = blocks(out@);
    assert(front =~= row.take(i as int) + seq![
        Block::Container(row[i as int]->Container_0.take(at as int), row[i as int]->Container_1),
        Block::Vertex(id),
        Block::Container(
            row[i as int]->Container_0.skip(at + 1),
            row[i as int]->Container_1 + at + 1,
        ),
    ]);
    for k in i + 1..layer.items.len()
        invariant
            layer@ == row,
            i < row.len(),
            i + 1 <= k,
            blocks(out@) == front + row.subrange(i + 1, k as int),
    {
        assert(row[k as int] == layer.items@[k as int]@);
        let item = copy_item(&layer.items[k]);
        push_block(&mut out, item);
        assert(blocks(out@) =~= front + row.subrange(i + 1, k + 1));
    }
    assert(row.subrange(i + 1, row.len() as int) =~= row.skip(i + 1));
    layer.items = out;
    proof {
        assert forall|k: int| 0 <= k < layer@.len() implies match #[trigger] layer@[k] {
            Block::Container(c, pos) => 0 <= pos && 2 * (pos + c.len()) <= usize::MAX,
            Block::Vertex(_) => true,
        } by {
            if k < i {
                assert(layer@[k] == row[k]);
            } else if k >= i + 3 {
                assert(layer@[k] == row[k - 2]);
            } else {
                assert(row[i as int] is Container);
            }
        }
    }
}

/// Ending the segments of distinct vertices replaces them by the vertices, place by place.
pub proof fn lemma_extracted(net: Wiring, row: Seq<Block>, child: Seq<usize>)
    requires
        flat(row).no_duplicates(),
        child.no_duplicates(),
        forall|i: int|
            0 <= i < child.len() && net.qs.contains(#[trigger] child[i]) ==> flat(row).contains(
                Slot::Segment(child[i]),
            ),
    ensures
        flat(net.extracted(row, child)) == flat(row).map_values(
            |slot: Slot| net.ended_slot(child, slot),
        ),
    decreases child.len(),
{
    let f = |slot: Slot| net.ended_slot(child, slot);
    let done = child.drop_last();
    if child.len() == 0 {
        assert(flat(row).map_values(f) =~= flat(row));
    } else {
        let id = child.last();
        let g = |slot: Slot| net.ended_slot(done, slot);
        assert forall|i: int| 0 <= i < done.len() && net.qs.contains(#[trigger] done[i]) implies flat(
            row,
        ).contains(Slot::Segment(done[i])) by {
            assert(child[i] == done[i]);
        }
        lemma_extracted(net, row, done);
        let before = net.extracted(row, done);
        assert(child =~= done.push(id));
        assert forall|v: usize| #[trigger] child.contains(v) <==> done.contains(v) || v == id by {
            if done.contains(v) {
                let i = choose|i: int| 0 <= i < done.len() && done[i] == v;
                assert(child[i] == v);
            }
            if child.contains(v) && v != id {
                let i = choose|i: int| 0 <= i < child.len() && child[i] == v;
                assert(done[i] == v);
            }
            assert(child[child.len() - 1] == id);
        }
        assert(!done.contains(id)) by {
            if done.contains(id) {
                let i = choose|i: int| 0 <= i < done.len() && done[i] == id;
                assert(child[i] == child[child.len() - 1]);
            }
        }
        if net.qs.contains(id) {
            assert(child[child.len() - 1] == id);
            let k = choose|k: int| 0 <= k < flat(row).len() && flat(row)[k] == Slot::Segment(id);
            assert(flat(before)[k] == Slot::Segment(id));
            lemma_has_first_lane(before, id);
            let (i, at) = choose|i: int, at: int| is_first_lane_of(before, i, at, id);
            lemma_extracted_at(before, i, at, id);
            lemma_split_at(before, i, at, id);
            let m = flat(before.take(i)).len() + at;
            assert(g(flat(row)[m]) == Slot::Segment(id));
            assert(flat(row)[m] == Slot::Segment(id));
            assert(m == k);
            assert forall|j: int| 0 <= j < flat(row).len() implies #[trigger] flat(row).map_values(
                f,
            )[j] == flat(before).update(m, Slot::Vertex(id))[j] by {
                assert(j != m ==> flat(row)[j] != flat(row)[m]);
            }
            assert(flat(net.extracted(row, child)) =~= flat(row).map_values(f));
        } else {
            assert(flat(row).map_values(f) =~= flat(row).map_values(g));
        }
    }
}

pub proof fn lemma_has_first_lane(row: Seq<Block>, id: usize)
    requires
        flat(row).contains(Slot::Segment(id)),
    ensures
        exists|i: int, at: int| is_first_lane_of(row, i, at, id),
{
    lemma_has_lane(row, id);
    let (i, at) = choose|i: int, at: int| is_lane_of(row, i, at, id);
    lemma_first_lane_down(row, i, at, id);
}

/// There is a first lane at or before any lane.
proof fn lemma_first_lane_down(row: Seq<Block>, i: int, at: int, id: usize)
    requires
        is_lane_of(row, i, at, id),
    ensures
        exists|i: int, at: int| is_first_lane_of(row, i, at, id),
    decreases i, at,
{
    if !is_first_lane_of(row, i, at, id) {
        let (j, k) = choose|j: int, k: int| #[trigger]
            is_lane_of(row, j, k, id) && !(i < j || i == j && at <= k);
        lemma_first_lane_down(row, j, k, id);
    }
}

impl<'a> Net<'a> {
    /// Pulls each vertex where a segment ends out of the container holding the segment.
    pub fn extract_q(&self, layer: &mut Layer, child: &Vec<usize>)
        requires
            has_small_positions(old(layer)@),
            flat(old(layer)@).no_duplicates(),
            child@.no_duplicates(),
            forall|i: int|
                0 <= i < child@.len() && self@.qs.contains(#[trigger] child@[i]) ==> flat(
                    old(layer)@,
                ).contains(Slot::Segment(child@[i])),
        ensures
            final(layer)@ == self@.extracted(old(layer)@, child@),
    {
        let ghost row = layer@;
        for i in 0..child.len()
            invariant
                flat(row).no_duplicates(),
                child@.no_duplicates(),
                forall|i: int|
                    0 <= i < child@.len() && self@.qs.contains(#[trigger] child@[i]) ==> flat(
                        row,
                    ).contains(Slot::Segment(child@[i])),
                has_small_positions(layer@),
                layer@ == self@.extracted(row, child@.take(i as int)),
        {
            let id: usize = child[i];
            let ghost done = child@.take(i as int);
            assert(child@.take(i + 1).drop_last() =~= done);
            if self.is_q(id) {
                proof {
                    assert forall|k: int|
                        0 <= k < done.len() && self@.qs.contains(#[trigger] done[k]) implies flat(
                        row,
                    ).contains(Slot::Segment(done[k])) by {
                        assert(child@[k] == done[k]);
                    }
                    lemma_extracted(self@, row, done);
                    assert(child@[i as int] == id);
                    let k = choose|k: int|
                        0 <= k < flat(row).len() && flat(row)[k] == Slot::Segment(id);
                    assert(!done.contains(id));
                    assert(flat(layer@)[k] == Slot::Segment(id));
                }
                extract_one(layer, id);
            }
        }
        assert(child@.take(child@.len() as int) =~= child@);
    }
}

} // verus!
