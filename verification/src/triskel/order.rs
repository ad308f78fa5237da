//! Within-rank ordering.
//!
//! Output: every vertex's `order`, the vertices of each rank, and the slots of each rank
//! (vertices and segment lanes, left to right) that the coordinate phase works on.
use crate::counting::total;
use crate::graph::owning::NodeEntry;
use crate::graph::Graph;
use crate::registry::Identifier;
use crate::sorting::{sort_pairs, sorted_pairs};
use crate::triskel::cells::{has_lanes, is_slotting};
use crate::triskel::lanes::{
    assign_container_positions, flat, has_room, is_normal, lemma_absorbed, lemma_placed,
    lemma_seated_bound, merge, normalized, placed, rows_of, seated, vertices, wished, Block, Layer,
    Net, Slot, Wiring,
};
use crate::triskel::layout_graph::{
    layer_of, lemma_first_relative, lemma_relatives, relatives, state_of, LayoutGraph, LayoutState,
    NodeLayoutData,
};
use crate::triskel::segment::{
    comes_from_p, is_paired, layer_in, leads_to_q, ranks_bounded, SegmentInfo, Segmented,
};
use crate::triskel::sweep::{
    are_bounded, belongs, degrees, fills, fits, is_layered, is_sweepable, lemma_first_row,
    lemma_free, lemma_next_row, lemma_sorted_row, limit, next_row, search, searched, sort_row,
    sorted_row,
};
use vstd::prelude::*;

verus! {

/// The vertices of each rank, and its slots.
pub struct RowOrder {
    pub layers: Vec<Vec<usize>>,
    pub slots: Vec<Vec<Slot>>,
}

/// The slots of each rank as plain sequences.
pub open spec fn slot_rows(slots: Seq<Vec<Slot>>) -> Seq<Seq<Slot>> {
    slots.map_values(|row: Vec<Slot>| row@)
}

// Depth-first seeds.

pub open spec fn twice(list: Seq<usize>) -> Seq<(usize, usize)> {
    list.map_values(|id: usize| (id, id))
}

/// The numbers of a list in descending order.
pub open spec fn descending(list: Seq<usize>) -> Seq<usize> {
    wished(sorted_pairs(twice(list))).reverse()
}

/// The nodes that a depth-first walk meets, in its order. `stack` is what it has still to
/// visit, and the smallest child comes first.
pub open spec fn preorder(ahead: Seq<Seq<usize>>, stack: Seq<usize>, seen: Seq<usize>) -> Seq<usize>
    decreases ahead.len() - seen.len(), stack.len(),
{
    if stack.len() == 0 || seen.len() >= ahead.len() {
        seen
    } else if seen.contains(stack.last()) {
        preorder(ahead, stack.drop_last(), seen)
    } else {
        preorder(
            ahead,
            stack.drop_last() + descending(ahead[stack.last() as int]),
            seen.push(stack.last()),
        )
    }
}

/// A list with those of `ids` behind it that it lacks.
pub open spec fn with_missing(list: Seq<usize>, ids: Seq<usize>) -> Seq<usize>
    decreases ids.len(),
{
    if ids.len() == 0 {
        list
    } else {
        let before = with_missing(list, ids.drop_last());
        if before.contains(ids.last()) {
            before
        } else {
            before.push(ids.last())
        }
    }
}

/// The place of each of `n` nodes in a list.
pub open spec fn numbered(list: Seq<usize>, n: nat) -> Seq<usize>
    decreases list.len(),
{
    if list.len() == 0 {
        Seq::new(n, |v: int| 0usize)
    } else {
        numbered(list.drop_last(), n).update(list.last() as int, (list.len() - 1) as usize)
    }
}

fn push_descending(stack: &mut Vec<usize>, list: &Vec<usize>)
    ensures
        final(stack)@ == old(stack)@ + descending(list@),
{
    let ghost start = stack@;
    let mut pairs: Vec<(usize, usize)> = Vec::new();
    for i in 0..list.len()
        invariant
            pairs@ == twice(list@).take(i as int),
    {
        pairs.push((list[i], list[i]));
        assert(pairs@ =~= twice(list@).take(i + 1));
    }
    assert(pairs@ =~= twice(list@));
    let sorted = sort_pairs(&pairs);
    let ghost all = descending(list@);
    let mut k: usize = sorted.len();
    while k > 0
        invariant
            k <= sorted@.len(),
            all == wished(sorted@).reverse(),
            stack@ == start + all.take(sorted@.len() - k),
        decreases k,
    {
        k = k - 1;
        stack.push(sorted[k].1);
        assert(stack@ =~= start + all.take(sorted@.len() - k));
    }
    assert(all.take(sorted@.len() as int) =~= all);
}

/// Which of `n` nodes a list holds.
pub open spec fn flags_list(flags: Seq<bool>, list: Seq<usize>) -> bool {
    forall|v: int| 0 <= v < flags.len() ==> #[trigger] flags[v] == list.contains(v as usize)
}

proof fn lemma_flag(flags: Seq<bool>, list: Seq<usize>, v: usize)
    requires
        flags_list(flags, list),
        flags.len() <= usize::MAX,
        v < flags.len(),
    ensures
        flags_list(flags.update(v as int, true), list.push(v)),
{
    let after = flags.update(v as int, true);
    assert forall|w: int| 0 <= w < after.len() implies #[trigger] after[w] == list.push(v).contains(
        w as usize,
    ) by {
        assert(flags[w] == list.contains(w as usize));
        if list.contains(w as usize) {
            let i = choose|i: int| 0 <= i < list.len() && list[i] == w as usize;
            assert(list.push(v)[i] == w as usize);
        }
        assert(list.push(v)[list.len() as int] == v);
        if list.push(v).contains(w as usize) && w != v {
            let i = choose|i: int| 0 <= i < list.push(v).len() && list.push(v)[i] == w as usize;
            assert(list[i] == w as usize);
        }
    }
}

/// The nodes in the order of a depth-first walk from `root`, then the others.
fn walk_order(ahead: &Vec<Vec<usize>>, ids: &Vec<usize>, root: usize) -> (list: Vec<usize>)
    requires
        root < ahead@.len(),
        forall|i: int| 0 <= i < ids@.len() ==> #[trigger] ids@[i] < ahead@.len(),
        forall|v: int, i: int|
            0 <= v < ahead@.len() && 0 <= i < rows_of(ahead@)[v].len() ==> #[trigger] rows_of(
                ahead@,
            )[v][i] < ahead@.len(),
    ensures
        list@ == with_missing(preorder(rows_of(ahead@), seq![root], Seq::empty()), ids@),
        forall|i: int| 0 <= i < list@.len() ==> #[trigger] list@[i] < ahead@.len(),
{
    let n = ahead.len();
    let ghost rows = rows_of(ahead@);
    let mut seen: Vec<bool> = Vec::new();
    for i in 0..n
        invariant
            seen@.len() == i,
            forall|v: int| 0 <= v < i ==> !#[trigger] seen@[v],
    {
        seen.push(false);
    }
    let mut list: Vec<usize> = Vec::new();
    let mut stack: Vec<usize> = Vec::new();
    stack.push(root);
    assert(stack@ =~= seq![root]);
    assert(list@ =~= Seq::empty());
    let ghost goal = preorder(rows, seq![root], Seq::empty());
    while stack.len() > 0 && list.len() < n
        invariant
            n == ahead@.len(),
            rows == rows_of(ahead@),
            seen@.len() == n,
            flags_list(seen@, list@),
            preorder(rows, stack@, list@) == goal,
            forall|i: int| 0 <= i < stack@.len() ==> #[trigger] stack@[i] < n,
            forall|i: int| 0 <= i < list@.len() ==> #[trigger] list@[i] < n,
            forall|v: int, i: int|
                0 <= v < n && 0 <= i < rows[v].len() ==> #[trigger] rows[v][i] < n,
        decreases n - list@.len(), stack@.len(),
    {
        let ghost before = stack@;
        assert(before[before.len() - 1] < n);
        let node: usize = stack.pop().unwrap();
        assert(stack@ =~= before.drop_last());
        assert(seen@[node as int] == list@.contains(node));
        if !seen[node] {
            proof {
                lemma_flag(seen@, list@, node);
                assert(rows[node as int] == ahead@[node as int]@);
                lemma_descending(rows[node as int], n as int);
            }
            seen[node] = true;
            list.push(node);
            push_descending(&mut stack, &ahead[node]);
            assert(stack@ == before.drop_last() + descending(rows[node as int]));
        }
    }
    assert(list@ == goal);
    for i in 0..ids.len()
        invariant
            n == ahead@.len(),
            seen@.len() == n,
            flags_list(seen@, list@),
            list@ == with_missing(goal, ids@.take(i as int)),
            forall|i: int| 0 <= i < ids@.len() ==> #[trigger] ids@[i] < n,
            forall|i: int| 0 <= i < list@.len() ==> #[trigger] list@[i] < n,
    {
        let id: usize = ids[i];
        assert(ids@[i as int] < n);
        assert(ids@.take(i + 1).drop_last() =~= ids@.take(i as int));
        assert(seen@[id as int] == list@.contains(id));
        if !seen[id] {
            proof {
                lemma_flag(seen@, list@, id);
            }
            seen[id] = true;
            list.push(id);
        }
    }
    assert(ids@.take(ids@.len() as int) =~= ids@);
    list
}

proof fn lemma_descending(list: Seq<usize>, n: int)
    requires
        forall|i: int| 0 <= i < list.len() ==> #[trigger] list[i] < n,
    ensures
        forall|i: int|
            0 <= i < descending(list).len() ==> #[trigger] descending(list)[i] < n,
{
    broadcast use vstd::seq_lib::group_to_multiset_ensures;

    let pairs = twice(list);
    let out = sorted_pairs(pairs);
    crate::sorting::lemma_pairs_are_sorted(pairs);
    assert forall|i: int| 0 <= i < descending(list).len() implies #[trigger] descending(list)[i]
        < n by {
        let pair = out[out.len() - 1 - i];
        assert(out.contains(pair));
        assert(out.to_multiset().count(pair) > 0);
        assert(pairs.contains(pair));
        let k = choose|k: int| 0 <= k < pairs.len() && pairs[k] == pair;
        assert(list[k] < n);
    }
}

fn number_list(list: &Vec<usize>, n: usize) -> (number: Vec<usize>)
    requires
        forall|i: int| 0 <= i < list@.len() ==> #[trigger] list@[i] < n,
    ensures
        number@ == numbered(list@, n as nat),
        number@.len() == n,
{
    let mut number: Vec<usize> = Vec::new();
    for i in 0..n
        invariant
            number@.len() == i,
            forall|v: int| 0 <= v < i ==> #[trigger] number@[v] == 0,
    {
        number.push(0);
    }
    assert(number@ =~= numbered(list@.take(0), n as nat));
    for i in 0..list.len()
        invariant
            forall|i: int| 0 <= i < list@.len() ==> #[trigger] list@[i] < n,
            number@.len() == n,
            number@ == numbered(list@.take(i as int), n as nat),
    {
        assert(list@[i as int] < n);
        assert(list@.take(i + 1).drop_last() =~= list@.take(i as int));
        number[list[i]] = i;
    }
    assert(list@.take(list@.len() as int) =~= list@);
    number
}

// Rows.

/// The nodes of a list that stand in layer `r`.
pub open spec fn row_of(state: LayoutState, ids: Seq<usize>, r: int) -> Seq<usize>
    decreases ids.len(),
{
    if ids.len() == 0 {
        Seq::empty()
    } else {
        let before = row_of(state, ids.drop_last(), r);
        if layer_in(state, ids.last()) == r {
            before.push(ids.last())
        } else {
            before
        }
    }
}

/// How many layers there are down to the last of the nodes of a list.
pub open spec fn height_of(state: LayoutState, ids: Seq<usize>) -> nat
    decreases ids.len(),
{
    if ids.len() == 0 {
        1
    } else {
        let before = height_of(state, ids.drop_last());
        if layer_in(state, ids.last()) + 1 > before {
            (layer_in(state, ids.last()) + 1) as nat
        } else {
            before
        }
    }
}

/// The layers with the nodes of a list.
pub open spec fn rows_in(state: LayoutState, ids: Seq<usize>, height: nat) -> Seq<Seq<usize>> {
    Seq::new(height, |r: int| row_of(state, ids, r))
}

pub proof fn lemma_height(state: LayoutState, ids: Seq<usize>)
    ensures
        height_of(state, ids) >= 1,
        forall|i: int|
            0 <= i < ids.len() ==> 0 <= layer_in(state, #[trigger] ids[i]) < height_of(state, ids),
    decreases ids.len(),
{
    if ids.len() > 0 {
        lemma_height(state, ids.drop_last());
        assert forall|i: int| 0 <= i < ids.len() implies 0 <= layer_in(state, #[trigger] ids[i])
            < height_of(state, ids) by {
            if i < ids.len() - 1 {
                assert(ids.drop_last()[i] == ids[i]);
            }
        }
    }
}

pub proof fn lemma_row_of(state: LayoutState, ids: Seq<usize>, r: int)
    requires
        ids.no_duplicates(),
    ensures
        row_of(state, ids, r).no_duplicates(),
        forall|v: usize| #[trigger]
            row_of(state, ids, r).contains(v) <==> ids.contains(v) && layer_in(state, v) == r,
    decreases ids.len(),
{
    if ids.len() > 0 {
        let shorter = ids.drop_last();
        let last = ids.last();
        let before = row_of(state, shorter, r);
        let after = row_of(state, ids, r);
        lemma_row_of(state, shorter, r);
        assert(!shorter.contains(last)) by {
            if shorter.contains(last) {
                let i = choose|i: int| 0 <= i < shorter.len() && shorter[i] == last;
                assert(ids[i] == ids[ids.len() - 1]);
            }
        }
        assert(!before.contains(last));
        assert forall|v: usize| #[trigger] after.contains(v) <==> ids.contains(v) && layer_in(
            state,
            v,
        ) == r by {
            assert(before.contains(v) <==> shorter.contains(v) && layer_in(state, v) == r);
            if before.contains(v) {
                let i = choose|i: int| 0 <= i < before.len() && before[i] == v;
                assert(after[i] == v);
            }
            if shorter.contains(v) {
                let i = choose|i: int| 0 <= i < shorter.len() && shorter[i] == v;
                assert(ids[i] == v);
            }
            if v == last {
                assert(ids[ids.len() - 1] == v);
                if layer_in(state, v) == r {
                    assert(after[before.len() as int] == v);
                }
            }
            if ids.contains(v) && v != last {
                let i = choose|i: int| 0 <= i < ids.len() && ids[i] == v;
                assert(shorter[i] == v);
            }
            if after.contains(v) && v != last {
                let i = choose|i: int| 0 <= i < after.len() && after[i] == v;
                if i < before.len() {
                    assert(before[i] == v);
                }
            }
        }
    }
}

/// Sorts the nodes into their layers.
fn split_rows(graph: &LayoutGraph, ids: &Vec<usize>) -> (rows: Vec<Vec<usize>>)
    requires
        graph.wf(),
        ranks_bounded(state_of(graph)),
        forall|i: int| 0 <= i < ids@.len() ==> graph.node_map().contains_key(#[trigger] ids@[i]),
    ensures
        rows@.len() == height_of(state_of(graph), ids@),
        rows_of(rows@) == rows_in(state_of(graph), ids@, rows@.len()),
{
    let ghost state = state_of(graph);
    let mut height: usize = 1;
    for i in 0..ids.len()
        invariant
            graph.wf(),
            state == state_of(graph),
            ranks_bounded(state),
            forall|i: int| 0 <= i < ids@.len() ==> state.nodes.contains_key(#[trigger] ids@[i]),
            height == height_of(state, ids@.take(i as int)),
    {
        assert(state.nodes.contains_key(ids@[i as int]));
        assert(ids@.take(i + 1).drop_last() =~= ids@.take(i as int));
        let layer: usize = layer_of(graph, ids[i]);
        if layer + 1 > height {
            height = layer + 1;
        }
    }
    assert(ids@.take(ids@.len() as int) =~= ids@);
    let mut rows: Vec<Vec<usize>> = Vec::new();
    for r in 0..height
        invariant
            rows@.len() == r,
            forall|k: int| 0 <= k < r ==> (#[trigger] rows@[k])@ == Seq::<usize>::empty(),
    {
        rows.push(Vec::new());
    }
    for i in 0..ids.len()
        invariant
            graph.wf(),
            state == state_of(graph),
            ranks_bounded(state),
            forall|i: int| 0 <= i < ids@.len() ==> state.nodes.contains_key(#[trigger] ids@[i]),
            height == height_of(state, ids@),
            rows@.len() == height,
            forall|k: int|
                0 <= k < height ==> (#[trigger] rows@[k])@ == row_of(state, ids@.take(i as int), k),
    {
        proof {
            assert(state.nodes.contains_key(ids@[i as int]));
            assert(ids@.take(i + 1).drop_last() =~= ids@.take(i as int));
            lemma_height(state, ids@);
            assert(layer_in(state, ids@[i as int]) < height);
        }
        let layer: usize = layer_of(graph, ids[i]);
        let ghost before = rows@;
        rows[layer].push(ids[i]);
        proof {
            assert forall|k: int| 0 <= k < height implies (#[trigger] rows@[k])@ == row_of(
                state,
                ids@.take(i + 1),
                k,
            ) by {
                assert(before[k]@ == row_of(state, ids@.take(i as int), k));
            }
        }
    }
    assert(rows_of(rows@) =~= rows_in(state, ids@, rows@.len()));
    rows
}

/// All rows by numbers of their nodes.
pub open spec fn sorted_rows(rows: Seq<Seq<usize>>, number: Seq<usize>) -> Seq<Seq<usize>> {
    rows.map_values(|row: Seq<usize>| sorted_row(row, number))
}

/// The orders after all the nodes of the first `k` rows have taken their places.
pub open spec fn row_orders(rows: Seq<Seq<usize>>, orders: Seq<usize>, k: int) -> Seq<usize>
    decreases k,
{
    if k <= 0 {
        orders
    } else {
        seated(vertices(rows[k - 1]), row_orders(rows, orders, k - 1))
    }
}

fn sort_rows(rows: &Vec<Vec<usize>>, number: &Vec<usize>) -> (sorted: Vec<Vec<usize>>)
    requires
        forall|r: int, i: int|
            0 <= r < rows@.len() && 0 <= i < rows_of(rows@)[r].len() ==> #[trigger] rows_of(
                rows@,
            )[r][i] < number@.len(),
    ensures
        rows_of(sorted@) == sorted_rows(rows_of(rows@), number@),
        sorted@.len() == rows@.len(),
{
    let ghost all = rows_of(rows@);
    let mut sorted: Vec<Vec<usize>> = Vec::new();
    for r in 0..rows.len()
        invariant
            all == rows_of(rows@),
            forall|r: int, i: int|
                0 <= r < rows@.len() && 0 <= i < all[r].len() ==> #[trigger] all[r][i]
                    < number@.len(),
            sorted@.len() == r,
            forall|k: int|
                0 <= k < r ==> (#[trigger] sorted@[k])@ == sorted_row(all[k], number@),
    {
        assert(all[r as int] == rows@[r as int]@);
        let row = sort_row(&rows[r], number);
        sorted.push(row);
    }
    assert(rows_of(sorted@) =~= sorted_rows(all, number@));
    sorted
}

/// Sorting rows keeps them layered.
proof fn lemma_sorted_rows(
    net: Wiring,
    rows: Seq<Seq<usize>>,
    level: Seq<int>,
    number: Seq<usize>,
)
    requires
        is_sweepable(net, rows, level),
    ensures
        is_sweepable(net, sorted_rows(rows, number), level),
        forall|r: int|
            0 <= r < rows.len() ==> (#[trigger] sorted_rows(rows, number)[r]).len()
                == rows[r].len(),
{
    let after = sorted_rows(rows, number);
    assert forall|r: int| 0 <= r < after.len() implies (#[trigger] after[r]).no_duplicates()
        && after[r].len() == rows[r].len() && forall|v: usize| #[trigger]
        after[r].contains(v) <==> rows[r].contains(v) by {
        assert(rows[r].no_duplicates());
        lemma_sorted_row(rows[r], number);
    }
    assert forall|r: int, i: int| 0 <= r < after.len() && 0 <= i < after[r].len() implies (
    #[trigger] after[r][i]) < level.len() && level[after[r][i] as int] == r by {
        assert(after[r].contains(after[r][i]));
        assert(rows[r].contains(after[r][i]));
        let k = choose|k: int| 0 <= k < rows[r].len() && rows[r][k] == after[r][i];
        assert(rows[r][k] < level.len());
    }
    assert forall|p: usize| #[trigger] net.ps.contains(p) implies crate::triskel::sweep::starts_segment(
        net,
        after,
        level,
        p,
    ) by {
        assert(crate::triskel::sweep::starts_segment(net, rows, level, p));
        let q = net.far(p);
        assert(after[level[p as int]].contains(p));
        assert(after[level[q as int]].contains(q));
    }
}

/// Numbers the nodes of each row from left to right.
fn seat_rows(rows: &Vec<Vec<usize>>, n: usize) -> (orders: Vec<usize>)
    requires
        forall|r: int, i: int|
            0 <= r < rows@.len() && 0 <= i < rows_of(rows@)[r].len() ==> #[trigger] rows_of(
                rows@,
            )[r][i] < n,
        forall|r: int| 0 <= r < rows@.len() ==> (#[trigger] rows_of(rows@)[r]).len() <= n,
    ensures
        orders@ == row_orders(rows_of(rows@), zeros(n as nat), rows@.len() as int),
        orders@.len() == n,
        are_bounded(orders@),
{
    let ghost all = rows_of(rows@);
    let mut orders: Vec<usize> = Vec::new();
    for i in 0..n
        invariant
            orders@ == zeros(i as nat),
    {
        orders.push(0);
        assert(orders@ =~= zeros((i + 1) as nat));
    }
    for r in 0..rows.len()
        invariant
            all == rows_of(rows@),
            forall|r: int, i: int|
                0 <= r < rows@.len() && 0 <= i < all[r].len() ==> #[trigger] all[r][i] < n,
            forall|r: int| 0 <= r < rows@.len() ==> (#[trigger] all[r]).len() <= n,
            orders@.len() == n,
            are_bounded(orders@),
            orders@ == row_orders(all, zeros(n as nat), r as int),
    {
        assert(all[r as int] == rows@[r as int]@);
        let mut layer = Layer::of_vertices(&rows[r]);
        proof {
            crate::triskel::sweep::lemma_flat_vertices(all[r as int]);
            let slots = flat(layer@);
            assert forall|i: int| 0 <= i < slots.len() implies match #[trigger] slots[i] {
                Slot::Vertex(id) => id < n,
                Slot::Segment(_) => true,
            } by {
                assert(all[r as int][i] < n);
            }
            lemma_seated_bound(layer@, orders@, n as int);
        }
        assign_container_positions(&mut layer, &mut orders);
    }
    orders
}

pub open spec fn zeros(n: nat) -> Seq<usize> {
    Seq::new(n, |v: int| 0usize)
}

// The net of a layout.

/// What a sweep sees of a layout with `n` node identifiers.
pub open spec fn wiring(s: Segmented, n: nat) -> Wiring {
    Wiring {
        back: Seq::new(n, |v: int| s.state.parents(v as usize)),
        ahead: Seq::new(n, |v: int| s.state.children(v as usize)),
        ps: s.pvertices,
        qs: s.qvertices,
    }
}

/// The layer of each of `n` nodes.
pub open spec fn levels(state: LayoutState, n: nat) -> Seq<int> {
    Seq::new(n, |v: int| layer_in(state, v as usize))
}

/// The relatives of a node are among `n` nodes.
pub open spec fn relatives_below(state: LayoutState, id: usize, n: nat) -> bool {
    &&& forall|i: int|
        0 <= i < state.children(id).len() ==> #[trigger] state.children(id)[i] < n
    &&& forall|i: int| 0 <= i < state.parents(id).len() ==> #[trigger] state.parents(id)[i] < n
}

#[verifier::rlimit(40)]
proof fn lemma_sweepable(s: Segmented, ids: Seq<usize>, n: nat)
    requires
        s.state.is_sound(),
        is_paired(s),
        ids.no_duplicates(),
        n <= usize::MAX,
        forall|v: usize| #[trigger] ids.contains(v) <==> s.state.nodes.contains_key(v),
        forall|i: int| 0 <= i < ids.len() ==> #[trigger] ids[i] < n,
    ensures
        is_sweepable(
            wiring(s, n),
            rows_in(s.state, ids, height_of(s.state, ids)),
            levels(s.state, n),
        ),
{
    let net = wiring(s, n);
    let height = height_of(s.state, ids);
    let rows = rows_in(s.state, ids, height);
    let level = levels(s.state, n);
    lemma_height(s.state, ids);
    assert forall|v: usize| s.state.nodes.contains_key(v) implies v < n && 0 <= #[trigger] layer_in(
        s.state,
        v,
    ) < height by {
        assert(ids.contains(v));
        let i = choose|i: int| 0 <= i < ids.len() && ids[i] == v;
        assert(ids[i] < n);
    }
    assert forall|id: usize| #[trigger] relatives_below(s.state, id, n) by {
        if s.state.nodes.contains_key(id) {
            let list = s.state.nodes[id].edges;
            assert forall|i: int| 0 <= i < list.len() implies s.state.edges.contains_key(
                #[trigger] list[i],
            ) by {
                assert(s.state.nodes[id].edges.contains(list[i]));
            }
            lemma_relatives(s.state, id, list);
            assert forall|i: int| 0 <= i < s.state.children(id).len() implies #[trigger] s.state.children(
                id,
            )[i] < n by {
                assert(s.state.nodes.contains_key(s.state.ahead(id, list)[i]));
                assert(ids.contains(s.state.children(id)[i]));
            }
            assert forall|i: int| 0 <= i < s.state.parents(id).len() implies #[trigger] s.state.parents(
                id,
            )[i] < n by {
                assert(s.state.nodes.contains_key(s.state.back(id, list)[i]));
                assert(ids.contains(s.state.parents(id)[i]));
            }
        }
    }
    assert(net.is_wired(n)) by {
        assert forall|v: int, i: int| 0 <= v < n && 0 <= i < net.back[v].len() implies #[trigger] net.back[v][i]
            < n by {
            assert(relatives_below(s.state, v as usize, n));
            assert(net.back[v] == s.state.parents(v as usize));
        }
        assert forall|v: int, i: int| 0 <= v < n && 0 <= i < net.ahead[v].len() implies #[trigger] net.ahead[v][i]
            < n by {
            assert(relatives_below(s.state, v as usize, n));
            assert(net.ahead[v] == s.state.children(v as usize));
        }
    }
    assert(is_layered(rows, level)) by {
        assert forall|r: int| 0 <= r < rows.len() implies (#[trigger] rows[r]).no_duplicates() by {
            lemma_row_of(s.state, ids, r);
        }
        assert forall|r: int, i: int| 0 <= r < rows.len() && 0 <= i < rows[r].len() implies (
        #[trigger] rows[r][i]) < level.len() && level[rows[r][i] as int] == r by {
            lemma_row_of(s.state, ids, r);
            assert(rows[r].contains(rows[r][i]));
            assert(row_of(s.state, ids, r).contains(rows[r][i]));
            assert(ids.contains(rows[r][i]));
        }
    }
    assert forall|v: usize| s.state.nodes.contains_key(v) implies #[trigger] rows[level[v as int]].contains(
        v,
    ) by {
        assert(0 <= layer_in(s.state, v) < height);
        lemma_row_of(s.state, ids, level[v as int]);
        assert(ids.contains(v));
        assert(row_of(s.state, ids, level[v as int]).contains(v));
    }
    assert forall|p: usize| #[trigger] net.ps.contains(p) implies crate::triskel::sweep::starts_segment(
        net,
        rows,
        level,
        p,
    ) by {
        assert(leads_to_q(s, p));
        let q = s.state.edges[s.state.nodes[p].edges[0]].to;
        assert(comes_from_p(s, q));
        lemma_first_relative(s.state, p, s.state.nodes[p].edges);
        lemma_first_relative(s.state, q, s.state.nodes[q].edges);
        assert(0 <= layer_in(s.state, p) < height && 0 <= layer_in(s.state, q) < height);
        assert(rows[level[p as int]].contains(p) && rows[level[q as int]].contains(q));
    }
    assert forall|q: usize| #[trigger] net.qs.contains(q) implies crate::triskel::sweep::ends_segment(
        net,
        level,
        q,
    ) by {
        assert(comes_from_p(s, q));
        let p = s.state.edges[s.state.nodes[q].edges[0]].from;
        assert(leads_to_q(s, p));
        lemma_first_relative(s.state, q, s.state.nodes[q].edges);
        lemma_first_relative(s.state, p, s.state.nodes[p].edges);
        assert(0 <= layer_in(s.state, p) < height && 0 <= layer_in(s.state, q) < height);
    }
}

/// The parents and the children of each of `n` nodes.
fn build_links(graph: &LayoutGraph, n: usize) -> (links: (Vec<Vec<usize>>, Vec<Vec<usize>>))
    requires
        graph.wf(),
        state_of(graph).is_sound(),
    ensures
        links.0@.len() == n,
        links.1@.len() == n,
        rows_of(links.0@) == Seq::new(n as nat, |v: int| state_of(graph).parents(v as usize)),
        rows_of(links.1@) == Seq::new(n as nat, |v: int| state_of(graph).children(v as usize)),
{
    let ghost state = state_of(graph);
    let mut back: Vec<Vec<usize>> = Vec::new();
    let mut ahead: Vec<Vec<usize>> = Vec::new();
    for v in 0..n
        invariant
            graph.wf(),
            state == state_of(graph),
            state.is_sound(),
            back@.len() == v,
            ahead@.len() == v,
            forall|k: int| 0 <= k < v ==> (#[trigger] back@[k])@ == state.parents(k as usize),
            forall|k: int| 0 <= k < v ==> (#[trigger] ahead@[k])@ == state.children(k as usize),
    {
        proof {
            graph.lemma_members();
        }
        if graph.contains_node(v) {
            let (down, up) = relatives(graph, v);
            back.push(up);
            ahead.push(down);
        } else {
            back.push(Vec::new());
            ahead.push(Vec::new());
            assert(back@[v as int]@ =~= state.parents(v));
            assert(ahead@[v as int]@ =~= state.children(v));
        }
    }
    assert(rows_of(back@) =~= Seq::new(n as nat, |v: int| state.parents(v as usize)));
    assert(rows_of(ahead@) =~= Seq::new(n as nat, |v: int| state.children(v as usize)));
    (back, ahead)
}

// Slots.

/// A row with the orders so far.
pub struct Slotted {
    pub row: Seq<Block>,
    pub orders: Seq<usize>,
}

/// The rows rebuilt from the final orders, up to row `r`.
pub open spec fn slotted(net: Wiring, rows: Seq<Seq<usize>>, orders: Seq<usize>, r: int) -> Slotted
    decreases r,
{
    if r <= 0 {
        Slotted { row: normalized(vertices(rows[0])), orders }
    } else {
        let before = slotted(net, rows, orders, r - 1);
        let seats = seated(net.absorbed(before.row), before.orders);
        let nodes = sorted_pairs(net.free_orders(seats, rows[r]));
        Slotted { row: next_row(net, before.row, nodes, rows[r]), orders: seats }
    }
}

fn slot_step(
    net: &Net,
    layer: Layer,
    orders: &mut Vec<usize>,
    child: &Vec<usize>,
    Ghost(rows): Ghost<Seq<Seq<usize>>>,
    Ghost(level): Ghost<Seq<int>>,
    Ghost(r): Ghost<int>,
) -> (next: Layer)
    requires
        is_sweepable(net@, rows, level),
        0 <= r < rows.len() - 1,
        child@ == rows[r + 1],
        is_normal(layer@),
        fills(net@, rows, level, r, flat(layer@)),
        old(orders)@.len() == level.len(),
        are_bounded(old(orders)@),
        2 * level.len() <= usize::MAX,
    ensures
        final(orders)@ == seated(net@.absorbed(layer@), old(orders)@),
        next@ == next_row(
            net@,
            layer@,
            sorted_pairs(net@.free_orders(final(orders)@, child@)),
            child@,
        ),
        is_normal(next@),
        fills(net@, rows, level, r + 1, flat(next@)),
        final(orders)@.len() == level.len(),
        are_bounded(final(orders)@),
{
    let ghost row = layer@;
    let ghost n = level.len();
    let mut layer = layer;
    proof {
        crate::triskel::sweep::lemma_absorbed_fills(net@, rows, level, r, row);
        lemma_absorbed(net@, row);
        crate::triskel::sweep::lemma_row_limit(net@, rows, level, r, row);
        lemma_placed(net@.absorbed(row));
    }
    net.absorb_p(&mut layer);
    proof {
        let slots = flat(layer@);
        assert forall|i: int| 0 <= i < slots.len() implies match #[trigger] slots[i] {
            Slot::Vertex(id) => id < n,
            Slot::Segment(_) => true,
        } by {
            assert(slots.contains(slots[i]));
            match slots[i] {
                Slot::Vertex(id) => {
                    assert(rows[r].contains(id));
                    let k = choose|k: int| 0 <= k < rows[r].len() && rows[r][k] == id;
                    assert(rows[r][k] < level.len());
                },
                Slot::Segment(_) => {},
            }
        }
        assert(has_room(slots, n));
        lemma_seated_bound(layer@, orders@, n as int);
    }
    assign_container_positions(&mut layer, orders);
    proof {
        assert forall|i: int| 0 <= i < child@.len() implies #[trigger] child@[i] < n by {
            assert(rows[r + 1][i] < level.len());
        }
        assert forall|v: int| 0 <= v < n implies 2 * #[trigger] orders@[v] <= usize::MAX by {
            assert(orders@[v] <= n);
        }
        assert forall|i: int| 0 <= i < layer@.len() implies match #[trigger] layer@[i] {
            Block::Container(c, pos) => 0 <= pos && 2 * (pos + c.len()) <= usize::MAX,
            Block::Vertex(_) => true,
        } by {
            assert(layer@[i] == placed(net@.absorbed(row))[i]);
        }
    }
    let nodes = net.order_wishes(orders, child);
    proof {
        lemma_free(net@, rows, level, r + 1, orders@);
        lemma_next_row(net@, rows, level, r, row, nodes@);
        crate::triskel::sweep::lemma_merged_positions(layer@, nodes@);
    }
    let mut next = merge(layer, &nodes);
    net.extract_q(&mut next, child);
    next.normalize();
    next
}

/// Top-down reconstruction of the slots of each rank (vertices and segment lanes) from
/// the final orders.
fn build_slots(net: &Net, layers: &Vec<Vec<usize>>, orders: &mut Vec<usize>, Ghost(level): Ghost<
    Seq<int>,
>) -> (slots: Vec<Vec<Slot>>)
    requires
        is_sweepable(net@, rows_of(layers@), level),
        old(orders)@.len() == level.len(),
        are_bounded(old(orders)@),
        2 * level.len() <= usize::MAX,
    ensures
        final(orders)@ == slotted(
            net@,
            rows_of(layers@),
            old(orders)@,
            layers@.len() - 1,
        ).orders,
        final(orders)@.len() == level.len(),
        slots@.len() == layers@.len(),
        forall|r: int|
            0 <= r < slots@.len() ==> (#[trigger] slots@[r])@ == flat(
                slotted(net@, rows_of(layers@), old(orders)@, r).row,
            ) && fills(net@, rows_of(layers@), level, r, slots@[r]@),
{
    let ghost rows = rows_of(layers@);
    let ghost start = orders@;
    assert(layers@[0]@ == rows[0]);
    let mut slots: Vec<Vec<Slot>> = Vec::new();
    let mut layer = Layer::of_vertices(&layers[0]);
    layer.normalize();
    proof {
        lemma_first_row(net@, rows, level);
    }
    let row = layer.flatten();
    slots.push(row);
    let count = layers.len();
    for r in 1..count
        invariant
            rows == rows_of(layers@),
            count == layers@.len(),
            is_sweepable(net@, rows, level),
            2 * level.len() <= usize::MAX,
            orders@.len() == level.len(),
            are_bounded(orders@),
            is_normal(layer@),
            fills(net@, rows, level, r - 1, flat(layer@)),
            (Slotted { row: layer@, orders: orders@ }) == slotted(net@, rows, start, r - 1),
            slots@.len() == r,
            forall|k: int|
                0 <= k < r ==> (#[trigger] slots@[k])@ == flat(slotted(net@, rows, start, k).row)
                    && fills(net@, rows, level, k, slots@[k]@),
    {
        assert(layers@[r as int]@ == rows[r as int]);
        let next = slot_step(
            net,
            layer,
            orders,
            &layers[r],
            Ghost(rows),
            Ghost(level),
            Ghost(r - 1),
        );
        layer = next;
        let row = layer.flatten();
        slots.push(row);
    }
    slots
}

// The ordering as a whole.

/// How many identifiers there are up to the last of an ascending list.
pub open spec fn room(ids: Seq<usize>) -> nat {
    (ids.last() + 1) as nat
}

/// The layers with their nodes in the order of a depth-first walk from `root`.
pub open spec fn first_rows(s: Segmented, ids: Seq<usize>, root: usize) -> Seq<Seq<usize>> {
    let n = room(ids);
    let walk = with_missing(preorder(wiring(s, n).ahead, seq![root], Seq::empty()), ids);
    sorted_rows(rows_in(s.state, ids, height_of(s.state, ids)), numbered(walk, n))
}

/// The orders with the fewest crossings that the sweeps find.
pub open spec fn best_orders(s: Segmented, ids: Seq<usize>, root: usize, sweeps: int) -> Seq<usize> {
    let rows = first_rows(s, ids, root);
    let start = row_orders(rows, zeros(room(ids)), rows.len() as int);
    searched(wiring(s, room(ids)), rows, start, sweeps).best->Some_0.1
}

/// The layers with their nodes by the orders.
pub open spec fn final_rows(s: Segmented, ids: Seq<usize>, orders: Seq<usize>) -> Seq<Seq<usize>> {
    sorted_rows(rows_in(s.state, ids, height_of(s.state, ids)), orders)
}

/// `after` is `before` with new orders.
pub open spec fn has_orders(before: LayoutState, after: LayoutState, orders: Seq<usize>) -> bool {
    &&& after.edges == before.edges
    &&& after.next_node == before.next_node
    &&& after.next_edge == before.next_edge
    &&& after.nodes.dom() == before.nodes.dom()
    &&& forall|n: usize| #[trigger]
        before.nodes.contains_key(n) ==> after.nodes[n] == (NodeEntry {
            edges: before.nodes[n].edges,
            data: NodeLayoutData { order: orders[n as int], ..before.nodes[n].data },
        })
}

/// Writes orders to the nodes of a graph.
fn write_orders(graph: &mut LayoutGraph, ids: &Vec<usize>, orders: &Vec<usize>)
    requires
        old(graph).wf(),
        ids@ == old(graph).spec_nodes(),
        forall|i: int| 0 <= i < ids@.len() ==> #[trigger] ids@[i] < orders@.len(),
    ensures
        final(graph).wf(),
        has_orders(state_of(old(graph)), state_of(final(graph)), orders@),
{
    let ghost before = state_of(graph);
    proof {
        graph.lemma_members();
        assert forall|k: int| 0 <= k < ids@.len() implies before.nodes.contains_key(
            #[trigger] ids@[k],
        ) by {
            assert(ids@.contains(ids@[k]));
        }
        assert forall|n: usize| #[trigger] before.nodes.contains_key(n) implies ids@.contains(n) by {
            assert(graph.spec_nodes().contains(n));
        }
    }
    for i in 0..ids.len()
        invariant
            graph.wf(),
            ids@.no_duplicates(),
            forall|k: int| 0 <= k < ids@.len() ==> before.nodes.contains_key(#[trigger] ids@[k]),
            forall|k: int| 0 <= k < ids@.len() ==> #[trigger] ids@[k] < orders@.len(),
            ({
                let now = state_of(graph);
                &&& now.edges == before.edges
                &&& now.next_node == before.next_node
                &&& now.next_edge == before.next_edge
                &&& now.nodes.dom() == before.nodes.dom()
            }),
            forall|k: int|
                0 <= k < i ==> graph.node_map()[#[trigger] ids@[k]] == (NodeEntry {
                    edges: before.nodes[ids@[k]].edges,
                    data: NodeLayoutData {
                        order: orders@[ids@[k] as int],
                        ..before.nodes[ids@[k]].data
                    },
                }),
            forall|k: int|
                i <= k < ids@.len() ==> graph.node_map()[#[trigger] ids@[k]]
                    == before.nodes[ids@[k]],
    {
        let id: usize = ids[i];
        let ghost mid = state_of(graph);
        assert(before.nodes.contains_key(ids@[i as int]));
        assert(ids@[i as int] < orders@.len());
        assert(mid.nodes.dom().contains(id));
        {
            let mut node = graph.get_node_mut(id).unwrap();
            let data = node.data();
            data.order = orders[id];
        }
        proof {
            let after = state_of(graph);
            assert(after.nodes.dom() =~= before.nodes.dom());
            assert forall|k: int| 0 <= k < ids@.len() && k != i implies after.nodes[#[trigger] ids@[k]]
                == mid.nodes[ids@[k]] by {
                assert(ids@[k] != ids@[i as int]);
            }
        }
    }
    proof {
        let after = state_of(graph);
        assert forall|n: usize| #[trigger] before.nodes.contains_key(n) implies after.nodes[n] == (
        NodeEntry {
            edges: before.nodes[n].edges,
            data: NodeLayoutData { order: orders@[n as int], ..before.nodes[n].data },
        }) by {
            assert(ids@.contains(n));
            let k = ids@.index_of(n);
            assert(ids@[k] == n);
        }
    }
}

/// Orders the nodes within their ranks: seeds each rank from a depth-first walk, sweeps
/// down and up in turn `max_sweeps` times (once at least) to reduce crossings, and rebuilds
/// layers and slots from the best orders found.
///
/// Vertices occur once in the slots, at their own rank; each segment occupies exactly its
/// intermediate ranks and nowhere else.
#[verifier::rlimit(40)]
pub fn order(graph: &mut LayoutGraph, seg: &SegmentInfo, root: usize, max_sweeps: usize) -> (res:
    RowOrder)
    requires
        old(graph).wf(),
        state_of(old(graph)).is_sound(),
        ranks_bounded(state_of(old(graph))),
        old(graph).node_map().contains_key(root),
        ({
            let s = Segmented {
                state: state_of(old(graph)),
                pvertices: seg.pvertices@,
                qvertices: seg.qvertices@,
            };
            let ids = old(graph).spec_nodes();
            &&& is_paired(s)
            &&& room(ids) <= usize::MAX
            &&& fits(wiring(s, room(ids)), height_of(s.state, ids))
        }),
    ensures
        final(graph).wf(),
        ({
            let s = Segmented {
                state: state_of(old(graph)),
                pvertices: seg.pvertices@,
                qvertices: seg.qvertices@,
            };
            let ids = old(graph).spec_nodes();
            let net = wiring(s, room(ids));
            let sweeps = if max_sweeps == 0 {
                1
            } else {
                max_sweeps as int
            };
            let best = best_orders(s, ids, root, sweeps);
            let rows = final_rows(s, ids, best);
            let end = slotted(net, rows, best, rows.len() - 1);
            &&& rows_of(res.layers@) == rows
            &&& res.slots@.len() == rows.len()
            &&& forall|r: int|
                0 <= r < rows.len() ==> (#[trigger] res.slots@[r])@ == flat(
                    slotted(net, rows, best, r).row,
                ) && fills(net, rows, levels(s.state, room(ids)), r, res.slots@[r]@)
            &&& has_orders(state_of(old(graph)), state_of(final(graph)), end.orders)
        }),
{
    let ghost s = Segmented {
        state: state_of(graph),
        pvertices: seg.pvertices@,
        qvertices: seg.qvertices@,
    };
    let ids = graph.node_ids();
    proof {
        graph.lemma_members();
        assert(ids@.contains(root));
        assert forall|i: int| 0 <= i < ids@.len() implies s.state.nodes.contains_key(
            #[trigger] ids@[i],
        ) && ids@[i] < room(ids@) by {
            assert(graph.spec_nodes().contains(ids@[i]));
            if i < ids@.len() - 1 {
                assert(ids@[i].spec_index() < ids@[ids@.len() - 1].spec_index());
            }
        }
        assert(root < room(ids@)) by {
            let k = ids@.index_of(root);
            assert(ids@[k] < room(ids@));
        }
        assert forall|v: usize| #[trigger] ids@.contains(v) <==> s.state.nodes.contains_key(v) by {
            assert(graph.spec_nodes().contains(v) <==> graph.node_map().contains_key(v));
        }
    }
    let n: usize = ids[ids.len() - 1] + 1;
    let ghost level = levels(s.state, n as nat);
    let rows = split_rows(graph, &ids);
    let ghost plain = rows_of(rows@);
    let (back, ahead) = build_links(graph, n);
    let net = Net {
        back: &back,
        ahead: &ahead,
        pvertices: &seg.pvertices,
        qvertices: &seg.qvertices,
    };
    proof {
        assert(net@ == wiring(s, n as nat));
        lemma_sweepable(s, ids@, n as nat);
        assert forall|v: int, i: int|
            0 <= v < ahead@.len() && 0 <= i < rows_of(ahead@)[v].len() implies #[trigger] rows_of(
            ahead@,
        )[v][i] < ahead@.len() by {
            assert(net@.ahead[v][i] < n);
        }
    }
    let walk = walk_order(&ahead, &ids, root);
    let number = number_list(&walk, n);
    proof {
        assert forall|r: int, i: int|
            0 <= r < rows@.len() && 0 <= i < plain[r].len() implies #[trigger] plain[r][i]
            < n by {}
    }
    let layering = sort_rows(&rows, &number);
    let ghost seeded = rows_of(layering@);
    proof {
        lemma_sorted_rows(net@, plain, level, number@);
        assert(seeded == first_rows(s, ids@, root));
        assert forall|r: int| 0 <= r < layering@.len() implies (#[trigger] seeded[r]).len() <= n by {
            lemma_row_length(seeded, level, r);
        }
    }
    let orders = seat_rows(&layering, n);
    let rounds: usize = if max_sweeps == 0 {
        1
    } else {
        max_sweeps
    };
    let mut best = search(net, layering, orders, rounds, Ghost(level));
    let layers = sort_rows(&rows, &best);
    proof {
        lemma_sorted_rows(net@, plain, level, best@);
    }
    let slots = build_slots(&net, &layers, &mut best, Ghost(level));
    write_orders(graph, &ids, &best);
    RowOrder { layers, slots }
}

proof fn lemma_row_length(rows: Seq<Seq<usize>>, level: Seq<int>, r: int)
    requires
        is_layered(rows, level),
        0 <= r < rows.len(),
    ensures
        rows[r].len() <= level.len(),
{
    let ids = rows[r].map_values(|v: usize| v as int);
    assert forall|i: int| 0 <= i < ids.len() implies 0 <= #[trigger] ids[i] < level.len() by {
        assert(rows[r][i] < level.len());
    }
    assert forall|i: int, j: int| 0 <= i < ids.len() && 0 <= j < ids.len() && i != j implies ids[i]
        != ids[j] by {
        assert(rows[r].no_duplicates());
        assert(rows[r][i] != rows[r][j]);
    }
    crate::counting::lemma_distinct_in_range(ids, 0, level.len() as int);
}

// Limits.

/// The sum of the lengths of lists, if it is a machine integer.
fn total_length(lists: &Vec<Vec<usize>>) -> (sum: Option<usize>)
    ensures
        match sum {
            Some(sum) => sum == total(degrees(rows_of(lists@))),
            None => total(degrees(rows_of(lists@))) > usize::MAX,
        },
{
    let ghost all = degrees(rows_of(lists@));
    let mut sum: usize = 0;
    for i in 0..lists.len()
        invariant
            all == degrees(rows_of(lists@)),
            sum == total(all.take(i as int)),
    {
        proof {
            assert(all.take(i + 1).drop_last() =~= all.take(i as int));
            assert(all.take(i + 1).last() == lists@[i as int]@.len());
        }
        match sum.checked_add(lists[i].len()) {
            Some(more) => {
                sum = more;
            },
            None => {
                proof {
                    lemma_total_prefix(all, i + 1);
                }
                return None;
            },
        }
    }
    assert(all.take(all.len() as int) =~= all);
    Some(sum)
}

proof fn lemma_total_prefix(list: Seq<nat>, k: int)
    requires
        0 <= k <= list.len(),
    ensures
        total(list.take(k)) <= total(list),
    decreases list.len(),
{
    if k == list.len() {
        assert(list.take(k) =~= list);
    } else {
        lemma_total_prefix(list.drop_last(), k);
        assert(list.drop_last().take(k) =~= list.take(k));
    }
}

/// Whether the numbers that come up in ordering fit into machine integers.
fn numbers_fit(back: &Vec<Vec<usize>>, ahead: &Vec<Vec<usize>>, height: usize, Ghost(net): Ghost<Wiring>) -> (b: bool)
    requires
        height > 0,
        net.back == rows_of(back@),
        net.ahead == rows_of(ahead@),
    ensures
        b == fits(net, height as nat),
{
    let n: usize = back.len();
    let ghost lim = limit(net) as int;
    proof {
        assert(net.back.len() == n);
        assert(lim > usize::MAX ==> height * (lim * lim) > usize::MAX) by (nonlinear_arith)
            requires
                height > 0,
                lim >= 0,
        ;
    }
    if n > usize::MAX / 2 {
        return false;
    }
    let (a, b) = match (total_length(back), total_length(ahead)) {
        (Some(a), Some(b)) => (a, b),
        _ => {
            return false;
        },
    };
    let sum: usize = match a.checked_add(b) {
        Some(sum) => sum,
        None => {
            return false;
        },
    };
    let all: usize = match sum.checked_add(n) {
        Some(all) => all,
        None => {
            return false;
        },
    };
    assert(all == lim);
    let square: usize = match all.checked_mul(all) {
        Some(square) => square,
        None => {
            assert(height * (lim * lim) > usize::MAX) by (nonlinear_arith)
                requires
                    height > 0,
                    lim * lim > usize::MAX,
            ;
            return false;
        },
    };
    match height.checked_mul(square) {
        Some(_) => true,
        None => false,
    }
}

/// Whether a layout is small enough to be ordered.
pub fn can_be_ordered(graph: &LayoutGraph, seg: &SegmentInfo) -> (b: bool)
    requires
        graph.wf(),
        state_of(graph).is_sound(),
        ranks_bounded(state_of(graph)),
        graph.spec_nodes().len() > 0,
        room(graph.spec_nodes()) <= usize::MAX,
    ensures
        b == fits(
            wiring(
                Segmented {
                    state: state_of(graph),
                    pvertices: seg.pvertices@,
                    qvertices: seg.qvertices@,
                },
                room(graph.spec_nodes()),
            ),
            height_of(state_of(graph), graph.spec_nodes()),
        ),
{
    let ghost s = Segmented {
        state: state_of(graph),
        pvertices: seg.pvertices@,
        qvertices: seg.qvertices@,
    };
    let ids = graph.node_ids();
    proof {
        graph.lemma_members();
        assert forall|i: int| 0 <= i < ids@.len() implies graph.node_map().contains_key(
            #[trigger] ids@[i],
        ) by {
            assert(graph.spec_nodes().contains(ids@[i]));
        }
        lemma_height(s.state, ids@);
    }
    let n: usize = ids[ids.len() - 1] + 1;
    let rows = split_rows(graph, &ids);
    let (back, ahead) = build_links(graph, n);
    numbers_fit(&back, &ahead, rows.len(), Ghost(wiring(s, n as nat)))
}

/// The slots of an ordered layout hold each vertex in the row of its layer, and each
/// segment in all rows between its ends.
pub proof fn law_slots_hold_the_layout(
    s: Segmented,
    ids: Seq<usize>,
    orders: Seq<usize>,
    slots: Seq<Seq<Slot>>,
)
    requires
        s.state.is_sound(),
        is_paired(s),
        ids.len() > 0,
        ids.no_duplicates(),
        room(ids) <= usize::MAX,
        forall|v: usize| #[trigger] ids.contains(v) <==> s.state.nodes.contains_key(v),
        forall|i: int| 0 <= i < ids.len() ==> #[trigger] ids[i] < room(ids),
        slots.len() == height_of(s.state, ids),
        forall|r: int|
            0 <= r < slots.len() ==> fills(
                wiring(s, room(ids)),
                final_rows(s, ids, orders),
                levels(s.state, room(ids)),
                r,
                #[trigger] slots[r],
            ),
    ensures
        is_slotting(s, slots),
{
    let n = room(ids);
    let net = wiring(s, n);
    let level = levels(s.state, n);
    let rows = final_rows(s, ids, orders);
    let plain = rows_in(s.state, ids, height_of(s.state, ids));
    lemma_sweepable(s, ids, n);
    lemma_sorted_rows(net, plain, level, orders);
    lemma_height(s.state, ids);
    assert forall|v: usize| #[trigger] s.state.nodes.contains_key(v) implies layer_in(s.state, v)
        < slots.len() && slots[layer_in(s.state, v)].contains(Slot::Vertex(v)) && v < n by {
        assert(ids.contains(v));
        let i = ids.index_of(v);
        assert(ids[i] < n);
        let r = layer_in(s.state, v);
        assert(0 <= r < slots.len());
        lemma_row_of(s.state, ids, r);
        assert(plain[r].contains(v));
        lemma_sorted_row(plain[r], orders);
        assert(rows[r].contains(v));
        assert(fills(net, rows, level, r, slots[r]));
        assert(belongs(net, rows, level, r, Slot::Vertex(v)));
    }
    assert forall|r: int, i: int| 0 <= r < slots.len() && 0 <= i < slots[r].len() implies match #[trigger] slots[r][i] {
        Slot::Vertex(v) => s.state.nodes.contains_key(v),
        Slot::Segment(_) => true,
    } by {
        assert(fills(net, rows, level, r, slots[r]));
        assert(slots[r].contains(slots[r][i]));
        match slots[r][i] {
            Slot::Vertex(v) => {
                assert(belongs(net, rows, level, r, Slot::Vertex(v)));
                lemma_row_of(s.state, ids, r);
                lemma_sorted_row(plain[r], orders);
                assert(rows[r].contains(v));
                assert(plain[r].contains(v));
                assert(ids.contains(v));
            },
            Slot::Segment(_) => {},
        }
    }
    assert forall|q: usize| #[trigger] s.qvertices.contains(q) implies has_lanes(s, slots, q) by {
        assert(comes_from_p(s, q));
        let p = s.state.edges[s.state.nodes[q].edges[0]].from;
        assert(leads_to_q(s, p));
        lemma_first_relative(s.state, q, s.state.nodes[q].edges);
        assert(s.state.parents(q)[0] == p);
        assert(s.state.nodes.contains_key(p) && s.state.nodes.contains_key(q));
        assert forall|r: int| layer_in(s.state, p) < r < layer_in(s.state, q) implies (
        #[trigger] slots[r]).contains(Slot::Segment(q)) by {
            assert(fills(net, rows, level, r, slots[r]));
            assert(net.back[q as int] == s.state.parents(q));
            assert(belongs(net, rows, level, r, Slot::Segment(q)));
        }
    }
    assert forall|r: int| 0 <= r < slots.len() implies (#[trigger] slots[r]).no_duplicates() by {
        assert(fills(net, rows, level, r, slots[r]));
    }
}

/// Other orders do not change what the slots hold.
pub proof fn lemma_orders_keep_slotting(
    s: Segmented,
    after: LayoutState,
    orders: Seq<usize>,
    slots: Seq<Seq<Slot>>,
)
    requires
        is_slotting(s, slots),
        has_orders(s.state, after, orders),
    ensures
        is_slotting(Segmented { state: after, ..s }, slots),
{
    let t = Segmented { state: after, ..s };
    assert forall|v: usize| s.state.nodes.contains_key(v) implies #[trigger] after.nodes.contains_key(
        v,
    ) && layer_in(after, v) == layer_in(s.state, v) by {}
    assert forall|v: usize| #[trigger] after.nodes.contains_key(v) implies s.state.nodes.contains_key(
        v,
    ) by {
        assert(after.nodes.dom().contains(v));
    }
    assert forall|q: usize| #[trigger] t.qvertices.contains(q) implies has_lanes(t, slots, q) by {
        assert(has_lanes(s, slots, q));
        lemma_same_parents(s.state, after, q, s.state.nodes[q].edges);
    }
}

proof fn lemma_same_parents(a: LayoutState, b: LayoutState, v: usize, list: Seq<usize>)
    requires
        a.edges == b.edges,
    ensures
        a.back(v, list) == b.back(v, list),
    decreases list.len(),
{
    if list.len() > 0 {
        lemma_same_parents(a, b, v, list.drop_last());
    }
}

} // verus!
