//! What holds of the rows of a layout while nodes are being ordered.
use crate::sorting::{lemma_pairs_are_sorted, pair_le, sorted_pairs};
use crate::triskel::lanes::{
    alternates, flat, lanes, lemma_flat_join, lemma_flat_one, merged, rest, slots_of, with_orders,
    wished, Block, Slot, Wiring,
};
use vstd::prelude::*;

verus! {

// Wishes.

/// The orders of some vertices, from the least to the greatest.
pub open spec fn are_sorted_orders(ids: Seq<usize>, orders: Seq<usize>, sorted: Seq<usize>) -> bool {
    &&& sorted.to_multiset() == ids.map_values(|id: usize| orders[id as int]).to_multiset()
    &&& sorted.len() == ids.len()
    &&& forall|i: int, j: int|
        0 <= i < j < sorted.len() ==> #[trigger] sorted[i] <= #[trigger] sorted[j]
}

/// A vertex wishes to stand at the median of its neighbours: in the middle of the two that
/// are halfway through their sorted positions. One without neighbours wishes to stay.
pub proof fn law_wish_is_the_median(net: Wiring, orders: Seq<usize>, id: usize)
    ensures
        net.back[id as int].len() == 0 ==> net.wish(orders, id) == 2 * orders[id as int],
        net.back[id as int].len() > 0 ==> exists|sorted: Seq<usize>| #[trigger]
            are_sorted_orders(net.back[id as int], orders, sorted) && net.wish(orders, id)
                == sorted[(sorted.len() - 1) / 2] + sorted[sorted.len() as int / 2],
{
    broadcast use vstd::seq_lib::group_to_multiset_ensures;

    let near = net.back[id as int];
    let pairs = with_orders(near, orders);
    let found = sorted_pairs(pairs);
    lemma_pairs_are_sorted(pairs);
    let key = |p: (usize, usize)| p.0;
    let sorted = found.map_values(key);
    if near.len() > 0 {
        assert(pairs.map_values(key) =~= near.map_values(|id: usize| orders[id as int]));
        lemma_map_multiset(found, pairs);
        assert forall|i: int, j: int| 0 <= i < j < sorted.len() implies #[trigger] sorted[i]
            <= #[trigger] sorted[j] by {
            assert(pair_le(found[i], found[j]));
        }
        assert(are_sorted_orders(near, orders, sorted));
    }
}

/// Lists with the same pairs have the same first numbers.
proof fn lemma_map_multiset(a: Seq<(usize, usize)>, b: Seq<(usize, usize)>)
    requires
        a.to_multiset() == b.to_multiset(),
    ensures
        a.map_values(|p: (usize, usize)| p.0).to_multiset() == b.map_values(
            |p: (usize, usize)| p.0,
        ).to_multiset(),
    decreases a.len(),
{
    broadcast use vstd::seq_lib::group_to_multiset_ensures;

    let key = |p: (usize, usize)| p.0;
    assert(a.len() == a.to_multiset().len());
    assert(b.len() == b.to_multiset().len());
    if a.len() == 0 {
        assert(a.map_values(key) =~= b.map_values(key));
    } else {
        let x = a.last();
        assert(a.contains(x)) by {
            assert(a[a.len() - 1] == x);
        }
        assert(b.to_multiset().count(x) > 0);
        assert(b.contains(x));
        let i = b.index_of(x);
        let fewer = b.remove(i);
        let front = a.drop_last();
        assert(front.push(x) =~= a);
        assert(front.to_multiset().insert(x) =~= a.to_multiset());
        assert(fewer.to_multiset() =~= b.to_multiset().remove(x));
        assert(front.to_multiset() =~= fewer.to_multiset()) by {
            assert forall|y: (usize, usize)| front.to_multiset().count(y)
                == fewer.to_multiset().count(y) by {
                assert(a.to_multiset().count(y) == b.to_multiset().count(y));
            }
        }
        lemma_map_multiset(front, fewer);
        assert(a.map_values(key) =~= front.map_values(key).push(x.0));
        assert(b.map_values(key).remove(i) =~= fewer.map_values(key));
        assert(b.map_values(key)[i] == x.0);
        let (p, q) = (a.map_values(key), b.map_values(key));
        assert(p.to_multiset() =~= front.map_values(key).to_multiset().insert(x.0));
        assert(fewer.map_values(key).to_multiset() =~= q.to_multiset().remove(x.0));
        assert(q.contains(x.0));
        assert(q.to_multiset().count(x.0) > 0);
        assert(p.to_multiset() =~= q.to_multiset()) by {
            assert forall|y: usize| p.to_multiset().count(y) == q.to_multiset().count(y) by {
                assert(front.map_values(key).to_multiset().count(y)
                    == fewer.map_values(key).to_multiset().count(y));
            }
        }
    }
}

// Merges.

/// The vertices of a row from left to right, or its segments.
pub open spec fn picks(row: Seq<Slot>, vertex: bool) -> Seq<usize>
    decreases row.len(),
{
    if row.len() == 0 {
        Seq::empty()
    } else {
        let before = picks(row.drop_last(), vertex);
        match row.last() {
            Slot::Vertex(id) => if vertex {
                before.push(id)
            } else {
                before
            },
            Slot::Segment(id) => if vertex {
                before
            } else {
                before.push(id)
            },
        }
    }
}

proof fn lemma_picks_join(a: Seq<Slot>, b: Seq<Slot>, vertex: bool)
    ensures
        picks(a + b, vertex) == picks(a, vertex) + picks(b, vertex),
    decreases b.len(),
{
    if b.len() == 0 {
        assert(a + b =~= a);
        assert(picks(a, vertex) + picks(b, vertex) =~= picks(a, vertex));
    } else {
        lemma_picks_join(a, b.drop_last(), vertex);
        assert((a + b).drop_last() =~= a + b.drop_last());
        assert(picks(a + b, vertex) =~= picks(a, vertex) + picks(b, vertex));
    }
}

proof fn lemma_picks_lanes(c: Seq<usize>)
    ensures
        picks(lanes(c), false) == c,
        picks(lanes(c), true) == Seq::<usize>::empty(),
    decreases c.len(),
{
    if c.len() > 0 {
        lemma_picks_lanes(c.drop_last());
        assert(lanes(c).drop_last() =~= lanes(c.drop_last()));
        assert(c =~= c.drop_last().push(c.last()));
    } else {
        assert(picks(lanes(c), false) =~= c);
    }
}

proof fn lemma_picks_vertex(id: usize)
    ensures
        picks(seq![Slot::Vertex(id)], true) == seq![id],
        picks(seq![Slot::Vertex(id)], false) == Seq::<usize>::empty(),
{
    let one = seq![Slot::Vertex(id)];
    assert(one.drop_last() =~= Seq::empty());
    assert(picks(one.drop_last(), true) =~= Seq::empty());
    assert(picks(one.drop_last(), false) =~= Seq::empty());
    assert(picks(one, true) =~= seq![id]);
}

/// The elements of a row with a block before it.
proof fn lemma_picks_first(block: Block, row: Seq<Block>, vertex: bool)
    ensures
        picks(flat(seq![block] + row), vertex) == picks(slots_of(block), vertex) + picks(
            flat(row),
            vertex,
        ),
{
    lemma_flat_join(seq![block], row);
    lemma_flat_one(block);
    lemma_picks_join(slots_of(block), flat(row), vertex);
}

/// The row behind its first container and the vertex that follows.
proof fn lemma_rest(row: Seq<Block>)
    requires
        alternates(row),
        row.len() > 0,
    ensures
        row[0] is Container,
        alternates(rest(row, 2)),
        picks(flat(row), false) == row[0]->Container_0 + picks(flat(rest(row, 2)), false),
{
    assert(0int % 2 == 0);
    let next = rest(row, 2);
    assert forall|i: int| 0 <= i < next.len() implies ((#[trigger] next[i] is Container) <==> i % 2
        == 0) by {
        assert(next[i] == row[i + 2]);
    }
    lemma_picks_lanes(row[0]->Container_0);
    if row.len() > 1 {
        assert(row[1] is Vertex);
        assert(row =~= seq![row[0]] + (seq![row[1]] + next));
        lemma_picks_first(row[0], seq![row[1]] + next, false);
        lemma_picks_first(row[1], next, false);
        lemma_picks_vertex(row[1]->Vertex_0);
        assert(Seq::<usize>::empty() + picks(flat(next), false) =~= picks(flat(next), false));
    } else {
        assert(row =~= seq![row[0]] + next);
        lemma_picks_first(row[0], next, false);
    }
}

/// Where a merge splits the first container.
pub open spec fn split_place(row: Seq<Block>, nodes: Seq<(usize, usize)>) -> int {
    (nodes[0].0 - 2 * row[0]->Container_1) / 2
}

/// The row with the right part of its first container.
pub open spec fn right_part(row: Seq<Block>, k: int) -> Seq<Block> {
    row.update(
        0,
        Block::Container(row[0]->Container_0.skip(k), row[0]->Container_1 + k),
    )
}

proof fn lemma_right_part(row: Seq<Block>, k: int)
    requires
        alternates(row),
        row.len() > 0,
        0 <= k <= row[0]->Container_0.len(),
    ensures
        alternates(right_part(row, k)),
        picks(flat(row), false) == row[0]->Container_0.take(k) + picks(
            flat(right_part(row, k)),
            false,
        ),
{
    let more = right_part(row, k);
    let c = row[0]->Container_0;
    assert forall|i: int| 0 <= i < more.len() implies ((#[trigger] more[i] is Container) <==> i % 2
        == 0) by {
        assert(row[i] is Container <==> i % 2 == 0);
    }
    lemma_rest(row);
    lemma_rest(more);
    assert(rest(more, 2) =~= rest(row, 2));
    assert(c =~= c.take(k) + c.skip(k));
    assert(c + picks(flat(rest(row, 2)), false) =~= c.take(k) + (c.skip(k) + picks(
        flat(rest(row, 2)),
        false,
    )));
}

/// A merge keeps the order of the vertices that are merged in, and that of the segments.
pub proof fn law_merge_keeps_both_orders(row: Seq<Block>, nodes: Seq<(usize, usize)>)
    requires
        alternates(row),
    ensures
        picks(flat(merged(row, nodes)), true) == wished(nodes),
        picks(flat(merged(row, nodes)), false) == picks(flat(row), false),
    decreases row.len() + nodes.len(),
{
    let out = merged(row, nodes);
    if nodes.len() > 0 {
        lemma_picks_vertex(nodes[0].1);
        assert(wished(nodes) =~= seq![nodes[0].1] + wished(nodes.skip(1)));
    } else {
        assert(wished(nodes) =~= Seq::<usize>::empty());
    }
    if row.len() == 0 || row[0] is Vertex {
        if row.len() > 0 {
            lemma_rest(row);
        }
        if nodes.len() > 0 {
            law_merge_keeps_both_orders(row, nodes.skip(1));
            let tail = merged(row, nodes.skip(1));
            lemma_picks_first(Block::Vertex(nodes[0].1), tail, true);
            lemma_picks_first(Block::Vertex(nodes[0].1), tail, false);
            assert(Seq::<usize>::empty() + picks(flat(tail), false) =~= picks(flat(tail), false));
        }
    } else {
        let c = row[0]->Container_0;
        let pos = row[0]->Container_1;
        let next = rest(row, 2);
        lemma_rest(row);
        lemma_picks_lanes(c);
        if c.len() == 0 {
            law_merge_keeps_both_orders(next, nodes);
            assert(c + picks(flat(next), false) =~= picks(flat(next), false));
        } else if nodes.len() == 0 || (nodes[0].0 > 2 * pos && nodes[0].0 >= 2 * (pos + c.len()
            - 1)) {
            law_merge_keeps_both_orders(next, nodes);
            let tail = merged(next, nodes);
            lemma_picks_first(row[0], tail, true);
            lemma_picks_first(row[0], tail, false);
            assert(Seq::<usize>::empty() + picks(flat(tail), true) =~= picks(flat(tail), true));
        } else if nodes[0].0 <= 2 * pos {
            law_merge_keeps_both_orders(row, nodes.skip(1));
            let tail = merged(row, nodes.skip(1));
            lemma_picks_first(Block::Vertex(nodes[0].1), tail, true);
            lemma_picks_first(Block::Vertex(nodes[0].1), tail, false);
            assert(Seq::<usize>::empty() + picks(flat(tail), false) =~= picks(flat(tail), false));
        } else {
            let k = split_place(row, nodes);
            let more = right_part(row, k);
            let left = Block::Container(c.take(k), pos);
            let node = Block::Vertex(nodes[0].1);
            lemma_right_part(row, k);
            law_merge_keeps_both_orders(more, nodes.skip(1));
            let tail = merged(more, nodes.skip(1));
            assert(out =~= seq![left] + (seq![node] + tail));
            lemma_picks_first(left, seq![node] + tail, true);
            lemma_picks_first(left, seq![node] + tail, false);
            lemma_picks_first(node, tail, true);
            lemma_picks_first(node, tail, false);
            lemma_picks_lanes(c.take(k));
            assert(Seq::<usize>::empty() + (seq![nodes[0].1] + wished(nodes.skip(1)))
                =~= wished(nodes));
            assert(Seq::<usize>::empty() + picks(flat(tail), false) =~= picks(flat(tail), false));
        }
    }
}

/// One element stands left of another.
pub open spec fn precedes(row: Seq<Slot>, a: Slot, b: Slot) -> bool {
    exists|i: int, j: int|
        0 <= i < j < row.len() && #[trigger] row[i] == a && #[trigger] row[j] == b
}

/// The containers of a row stand at ascending positions.
pub open spec fn has_ascending_positions(row: Seq<Block>) -> bool {
    forall|i: int, j: int|
        0 <= i < j < row.len() && row[i] is Container && row[j] is Container ==> (
        #[trigger] row[i])->Container_1 + row[i]->Container_0.len() <= (
        #[trigger] row[j])->Container_1
}

/// Wishes ascend.
pub open spec fn are_ascending(nodes: Seq<(usize, usize)>) -> bool {
    forall|i: int, j: int|
        0 <= i < j < nodes.len() ==> (#[trigger] nodes[i]).0 <= (#[trigger] nodes[j]).0
}

proof fn lemma_precedes_behind(a: Seq<Slot>, b: Seq<Slot>, x: Slot, y: Slot)
    ensures
        precedes(b, x, y) ==> precedes(a + b, x, y),
        a.contains(x) && b.contains(y) ==> precedes(a + b, x, y),
{
    if precedes(b, x, y) {
        let (i, j) = choose|i: int, j: int|
            0 <= i < j < b.len() && #[trigger] b[i] == x && #[trigger] b[j] == y;
        assert((a + b)[a.len() + i] == x && (a + b)[a.len() + j] == y);
    }
    if a.contains(x) && b.contains(y) {
        let (i, j) = (a.index_of(x), b.index_of(y));
        assert((a + b)[i] == x && (a + b)[a.len() + j] == y);
    }
}

proof fn lemma_picked(row: Seq<Slot>, vertex: bool, id: usize)
    requires
        picks(row, vertex).contains(id),
    ensures
        row.contains(
            if vertex {
                Slot::Vertex(id)
            } else {
                Slot::Segment(id)
            },
        ),
    decreases row.len(),
{
    if row.len() > 0 {
        let front = row.drop_last();
        let slot = if vertex {
            Slot::Vertex(id)
        } else {
            Slot::Segment(id)
        };
        if row.last() == slot {
            assert(row[row.len() - 1] == slot);
        } else {
            let i = picks(row, vertex).index_of(id);
            assert(picks(front, vertex)[i] == id);
            lemma_picked(front, vertex, id);
            assert(row[front.index_of(slot)] == slot);
        }
    }
}

/// The segments of a container are among those of its row.
proof fn lemma_has_segment(row: Seq<Block>, i: int, at: int)
    requires
        alternates(row),
        0 <= i < row.len(),
        row[i] is Container,
        0 <= at < row[i]->Container_0.len(),
    ensures
        picks(flat(row), false).contains(row[i]->Container_0[at]),
    decreases row.len(),
{
    lemma_rest(row);
    let c = row[0]->Container_0;
    let later = picks(flat(rest(row, 2)), false);
    let id = row[i]->Container_0[at];
    if i == 0 {
        assert((c + later)[at] == id);
    } else {
        assert(i >= 2) by {
            assert(row[1] is Container <==> 1int % 2 == 0);
        }
        assert(rest(row, 2)[i - 2] == row[i]);
        lemma_has_segment(rest(row, 2), i - 2, at);
        assert((c + later)[c.len() + later.index_of(id)] == id);
    }
}

/// Vertices are merged in where they wish to stand: right of the segments that are further
/// left than their wish by a place or more, and left of those that are further right.
/// Positions count in places, and wishes in half places.
#[verifier::rlimit(40)]
pub proof fn law_merge_follows_wishes(row: Seq<Block>, nodes: Seq<(usize, usize)>, t: int, i: int, at: int)
    requires
        alternates(row),
        has_ascending_positions(row),
        are_ascending(nodes),
        0 <= t < nodes.len(),
        0 <= i < row.len(),
        row[i] is Container,
        0 <= at < row[i]->Container_0.len(),
    ensures
        ({
            let vertex = Slot::Vertex(nodes[t].1);
            let segment = Slot::Segment(row[i]->Container_0[at]);
            let place = 2 * (row[i]->Container_1 + at);
            let out = flat(merged(row, nodes));
            &&& nodes[t].0 >= place + 2 ==> precedes(out, segment, vertex)
            &&& nodes[t].0 < place ==> precedes(out, vertex, segment)
        }),
    decreases row.len() + nodes.len(),
{
    let out = merged(row, nodes);
    let vertex = Slot::Vertex(nodes[t].1);
    let id = row[i]->Container_0[at];
    let segment = Slot::Segment(id);
    let x = row[i]->Container_1 + at;
    lemma_rest(row);
    let c = row[0]->Container_0;
    let pos = row[0]->Container_1;
    let next = rest(row, 2);
    assert(0 < i ==> pos + c.len() <= row[i]->Container_1);
    assert(0 < t ==> nodes[0].0 <= nodes[t].0);
    let later = nodes.skip(1);
    assert(are_ascending(later)) by {
        assert forall|a: int, b: int| 0 <= a < b < later.len() implies (#[trigger] later[a]).0 <= (
        #[trigger] later[b]).0 by {
            assert(nodes[a + 1].0 <= nodes[b + 1].0);
        }
    }
    assert(i > 0 ==> i >= 2) by {
        if i == 1 {
            assert(row[1] is Container <==> 1int % 2 == 0);
        }
    }
    if i > 0 {
        assert(next[i - 2] == row[i]);
    }
    assert(has_ascending_positions(next)) by {
        assert forall|a: int, b: int|
            0 <= a < b < next.len() && next[a] is Container && next[b] is Container implies (
        #[trigger] next[a])->Container_1 + next[a]->Container_0.len() <= (
        #[trigger] next[b])->Container_1 by {
            assert(next[a] == row[a + 2] && next[b] == row[b + 2]);
        }
    }
    if c.len() == 0 {
        law_merge_follows_wishes(next, nodes, t, i - 2, at);
    } else if nodes[0].0 > 2 * pos && nodes[0].0 >= 2 * (pos + c.len() - 1) {
        let tail = merged(next, nodes);
        lemma_flat_join(seq![row[0]], tail);
        lemma_flat_one(row[0]);
        lemma_precedes_behind(lanes(c), flat(tail), segment, vertex);
        lemma_precedes_behind(lanes(c), flat(tail), vertex, segment);
        if i == 0 {
            assert(lanes(c)[at] == segment);
            law_merge_keeps_both_orders(next, nodes);
            assert(wished(nodes)[t] == nodes[t].1);
            lemma_picked(flat(tail), true, nodes[t].1);
        } else {
            law_merge_follows_wishes(next, nodes, t, i - 2, at);
        }
    } else if nodes[0].0 <= 2 * pos {
        let tail = merged(row, later);
        let first = seq![Slot::Vertex(nodes[0].1)];
        lemma_flat_join(seq![Block::Vertex(nodes[0].1)], tail);
        lemma_flat_one(Block::Vertex(nodes[0].1));
        lemma_precedes_behind(first, flat(tail), segment, vertex);
        lemma_precedes_behind(first, flat(tail), vertex, segment);
        if t == 0 {
            assert(first[0] == vertex);
            law_merge_keeps_both_orders(row, later);
            lemma_has_segment(row, i, at);
            lemma_picked(flat(tail), false, id);
        } else {
            assert(later[t - 1] == nodes[t]);
            law_merge_follows_wishes(row, later, t - 1, i, at);
        }
    } else {
        let k = split_place(row, nodes);
        let more = right_part(row, k);
        let left = Block::Container(c.take(k), pos);
        let node = Block::Vertex(nodes[0].1);
        let tail = merged(more, later);
        lemma_right_part(row, k);
        assert(out =~= seq![left] + (seq![node] + tail));
        lemma_flat_join(seq![left], seq![node] + tail);
        lemma_flat_join(seq![node], tail);
        lemma_flat_one(left);
        lemma_flat_one(node);
        let first = lanes(c.take(k));
        let second = seq![Slot::Vertex(nodes[0].1)];
        let behind = second + flat(tail);
        assert(flat(out) == first + behind);
        lemma_precedes_behind(first, behind, segment, vertex);
        lemma_precedes_behind(first, behind, vertex, segment);
        lemma_precedes_behind(second, flat(tail), segment, vertex);
        lemma_precedes_behind(second, flat(tail), vertex, segment);
        law_merge_keeps_both_orders(more, later);
        assert(second[0] == Slot::Vertex(nodes[0].1));
        assert(behind[0] == second[0]);
        if t > 0 {
            assert(later[t - 1] == nodes[t]);
            assert(wished(later)[t - 1] == nodes[t].1);
            lemma_picked(flat(tail), true, nodes[t].1);
            let j = flat(tail).index_of(vertex);
            assert(behind[1 + j] == vertex);
        }
        assert(behind.contains(vertex)) by {
            if t == 0 {
                assert(behind[0] == vertex);
            }
        }
        assert(has_ascending_positions(more)) by {
            assert forall|a: int, b: int|
                0 <= a < b < more.len() && more[a] is Container && more[b] is Container implies (
            #[trigger] more[a])->Container_1 + more[a]->Container_0.len() <= (
            #[trigger] more[b])->Container_1 by {
                assert(row[b] == more[b]);
                assert(row[a]->Container_1 + row[a]->Container_0.len() <= row[b]->Container_1);
                if a > 0 {
                    assert(row[a] == more[a]);
                }
            }
        }
        if i == 0 && at < k {
            assert(first[at] == segment);
        } else {
            let inner = if i == 0 {
                at - k
            } else {
                at
            };
            assert(more[i]->Container_0[inner] == id);
            if t > 0 {
                law_merge_follows_wishes(more, later, t - 1, i, inner);
            } else {
                lemma_has_segment(more, i, inner);
                lemma_picked(flat(tail), false, id);
            }
        }
    }
}

/// Each vertex of a row that ends no segment comes with its wish, in the order of the row.
pub proof fn law_wishes_are_listed(net: Wiring, orders: Seq<usize>, child: Seq<usize>)
    ensures
        ({
            let list = net.wishes(orders, child);
            &&& forall|i: int|
                #![trigger list[i]]
                0 <= i < list.len() ==> list[i].0 == net.wish(orders, list[i].1) as usize
                    && child.contains(list[i].1) && !net.qs.contains(list[i].1)
            &&& forall|k: int|
                0 <= k < child.len() && !net.qs.contains(#[trigger] child[k]) ==> wished(
                    list,
                ).contains(child[k])
        }),
    decreases child.len(),
{
    if child.len() > 0 {
        let front = child.drop_last();
        law_wishes_are_listed(net, orders, front);
        let before = net.wishes(orders, front);
        let list = net.wishes(orders, child);
        assert forall|i: int| #![trigger list[i]] 0 <= i < list.len() implies list[i].0 == net.wish(
            orders,
            list[i].1,
        ) as usize && child.contains(list[i].1) && !net.qs.contains(list[i].1) by {
            if i < before.len() {
                assert(list[i] == before[i]);
                assert(child[front.index_of(before[i].1)] == before[i].1);
            } else {
                assert(child[child.len() - 1] == list[i].1);
            }
        }
        assert forall|k: int| 0 <= k < child.len() && !net.qs.contains(
            #[trigger] child[k],
        ) implies wished(list).contains(child[k]) by {
            if k < front.len() {
                assert(front[k] == child[k]);
                let j = wished(before).index_of(child[k]);
                assert(wished(list)[j] == wished(before)[j]);
            } else {
                assert(wished(list)[before.len() as int] == child[k]);
            }
        }
    }
}

/// When rows are rebuilt, each vertex that ends no segment wishes to stand where it stood.
pub proof fn law_rebuilt_rows_keep_orders(net: Wiring, orders: Seq<usize>, child: Seq<usize>)
    ensures
        ({
            let list = net.free_orders(orders, child);
            &&& forall|i: int|
                #![trigger list[i]]
                0 <= i < list.len() ==> list[i].0 == (2 * orders[list[i].1 as int]) as usize
                    && child.contains(list[i].1) && !net.qs.contains(list[i].1)
            &&& forall|k: int|
                0 <= k < child.len() && !net.qs.contains(#[trigger] child[k]) ==> wished(
                    list,
                ).contains(child[k])
        }),
    decreases child.len(),
{
    if child.len() > 0 {
        let front = child.drop_last();
        law_rebuilt_rows_keep_orders(net, orders, front);
        let before = net.free_orders(orders, front);
        let list = net.free_orders(orders, child);
        assert forall|i: int| #![trigger list[i]] 0 <= i < list.len() implies list[i].0 == (2
            * orders[list[i].1 as int]) as usize && child.contains(list[i].1)
            && !net.qs.contains(list[i].1) by {
            if i < before.len() {
                assert(list[i] == before[i]);
                assert(child[front.index_of(before[i].1)] == before[i].1);
            } else {
                assert(child[child.len() - 1] == list[i].1);
            }
        }
        assert forall|k: int| 0 <= k < child.len() && !net.qs.contains(
            #[trigger] child[k],
        ) implies wished(list).contains(child[k]) by {
            if k < front.len() {
                assert(front[k] == child[k]);
                let j = wished(before).index_of(child[k]);
                assert(wished(list)[j] == wished(before)[j]);
            } else {
                assert(wished(list)[before.len() as int] == child[k]);
            }
        }
    }
}

} // verus!
