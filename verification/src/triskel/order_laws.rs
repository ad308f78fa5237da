//! What holds of the rows of an ordered layout.
use crate::sorting::{lemma_pairs_are_sorted, pair_le, sorted_pairs};
use crate::triskel::edge_laws::law_relatives_are_other_ends;
use crate::triskel::lanes::{flat, seated, vertices, with_orders, wished, Block, Slot};
use crate::triskel::layout_graph::LayoutState;
use crate::triskel::order::{
    best_orders, descending, final_rows, first_rows, height_of, lemma_height, lemma_row_of,
    levels, numbered, preorder, room, row_of, row_orders, twice, wiring, with_missing, zeros,
};
use crate::triskel::segment::{layer_in, Segmented};
use crate::triskel::sweep::{
    is_best_sweep, law_search_finds_the_best_sweep, lemma_flat_vertices, lemma_sorted_row,
    sorted_row,
};
use crate::triskel::sweep_laws::{law_vertices_sit_at_their_places, leads_on};
use vstd::prelude::*;

verus! {

/// A row by its orders: the same nodes, from the least order to the greatest, and nodes with
/// the same order by their identifiers.
pub proof fn law_sorted_row_ascends(row: Seq<usize>, orders: Seq<usize>)
    requires
        row.no_duplicates(),
    ensures
        sorted_row(row, orders).len() == row.len(),
        sorted_row(row, orders).no_duplicates(),
        forall|v: usize| #[trigger] sorted_row(row, orders).contains(v) <==> row.contains(v),
        forall|i: int, j: int|
            0 <= i < j < row.len() ==> {
                let (a, b) = (
                    #[trigger] sorted_row(row, orders)[i],
                    #[trigger] sorted_row(row, orders)[j],
                );
                orders[a as int] < orders[b as int] || orders[a as int] == orders[b as int] && a < b
            },
{
    broadcast use vstd::seq_lib::group_to_multiset_ensures;

    let pairs = with_orders(row, orders);
    let sorted = sorted_pairs(pairs);
    lemma_pairs_are_sorted(pairs);
    lemma_sorted_row(row, orders);
    let out = sorted_row(row, orders);
    assert forall|i: int| 0 <= i < out.len() implies #[trigger] out[i] == sorted[i].1
        && sorted[i].0 == orders[sorted[i].1 as int] by {
        assert(sorted.contains(sorted[i]));
        assert(pairs.to_multiset().count(sorted[i]) > 0);
        assert(pairs.contains(sorted[i]));
    }
    assert forall|i: int, j: int| 0 <= i < j < row.len() implies {
        let (a, b) = (#[trigger] out[i], #[trigger] out[j]);
        orders[a as int] < orders[b as int] || orders[a as int] == orders[b as int] && a < b
    } by {
        assert(pair_le(sorted[i], sorted[j]));
        assert(out[i] != out[j]);
    }
}

/// The rows of a layout hold the nodes of their layers, by their orders. There is a row for
/// every layer down to the last.
pub proof fn law_rows_are_the_layers(s: Segmented, ids: Seq<usize>, orders: Seq<usize>)
    requires
        ids.no_duplicates(),
    ensures
        ({
            let rows = final_rows(s, ids, orders);
            &&& forall|v: usize| #[trigger]
                ids.contains(v) ==> 0 <= layer_in(s.state, v) < rows.len()
            &&& rows.len() == 1 || exists|v: usize| #[trigger]
                ids.contains(v) && layer_in(s.state, v) == rows.len() - 1
            &&& forall|r: int|
                0 <= r < rows.len() ==> is_row(s.state, ids, orders, r, #[trigger] rows[r])
        }),
{
    let rows = final_rows(s, ids, orders);
    lemma_height(s.state, ids);
    lemma_last_layer(s.state, ids);
    assert forall|r: int| 0 <= r < rows.len() implies is_row(
        s.state,
        ids,
        orders,
        r,
        #[trigger] rows[r],
    ) by {
        lemma_row_of(s.state, ids, r);
        law_sorted_row_ascends(row_of(s.state, ids, r), orders);
        assert(rows[r] == sorted_row(row_of(s.state, ids, r), orders));
    }
}

/// The row holds the nodes of layer `r`, each once, by their orders.
pub open spec fn is_row(
    state: LayoutState,
    ids: Seq<usize>,
    orders: Seq<usize>,
    r: int,
    row: Seq<usize>,
) -> bool {
    &&& row.no_duplicates()
    &&& forall|v: usize| #[trigger]
        row.contains(v) <==> ids.contains(v) && layer_in(state, v) == r
    &&& forall|i: int, j: int|
        0 <= i < j < row.len() ==> orders[#[trigger] row[i] as int]
            <= orders[#[trigger] row[j] as int]
}

proof fn lemma_last_layer(state: LayoutState, ids: Seq<usize>)
    ensures
        height_of(state, ids) == 1 || exists|v: usize| #[trigger]
            ids.contains(v) && layer_in(state, v) == height_of(state, ids) - 1,
    decreases ids.len(),
{
    if ids.len() > 0 {
        let front = ids.drop_last();
        lemma_last_layer(state, front);
        if layer_in(state, ids.last()) + 1 > height_of(state, front) {
            assert(ids[ids.len() - 1] == ids.last());
            assert(ids.contains(ids.last()));
        } else if height_of(state, ids) != 1 {
            let v = choose|v: usize| #[trigger]
                front.contains(v) && layer_in(state, v) == height_of(state, front) - 1;
            assert(ids[front.index_of(v)] == v);
            assert(ids.contains(v));
        }
    }
}

/// The nodes of a list are numbered by their places.
pub proof fn law_nodes_are_numbered_by_place(list: Seq<usize>, n: nat, i: int)
    requires
        list.no_duplicates(),
        list.len() <= usize::MAX,
        forall|k: int| 0 <= k < list.len() ==> #[trigger] list[k] < n,
        0 <= i < list.len(),
    ensures
        numbered(list, n).len() == n,
        numbered(list, n)[list[i] as int] == i,
    decreases list.len(),
{
    let front = list.drop_last();
    assert forall|k: int| 0 <= k < front.len() implies #[trigger] front[k] < n by {
        assert(list[k] < n);
    }
    lemma_numbered_len(front, n);
    assert(list[list.len() - 1] < n);
    if i < front.len() {
        law_nodes_are_numbered_by_place(front, n, i);
        assert(list[i] != list[list.len() - 1]);
        assert(front[i] == list[i]);
    }
}

proof fn lemma_numbered_len(list: Seq<usize>, n: nat)
    requires
        forall|k: int| 0 <= k < list.len() ==> #[trigger] list[k] < n,
    ensures
        numbered(list, n).len() == n,
    decreases list.len(),
{
    if list.len() > 0 {
        let front = list.drop_last();
        assert forall|k: int| 0 <= k < front.len() implies #[trigger] front[k] < n by {
            assert(list[k] < n);
        }
        assert(list[list.len() - 1] < n);
        lemma_numbered_len(front, n);
    }
}

/// A completed list starts with the list, and holds each of the others once behind it.
pub proof fn law_missing_nodes_follow(list: Seq<usize>, ids: Seq<usize>)
    requires
        list.no_duplicates(),
    ensures
        list.is_prefix_of(with_missing(list, ids)),
        with_missing(list, ids).no_duplicates(),
        forall|v: usize| #[trigger]
            with_missing(list, ids).contains(v) <==> list.contains(v) || ids.contains(v),
    decreases ids.len(),
{
    if ids.len() > 0 {
        let front = ids.drop_last();
        law_missing_nodes_follow(list, front);
        let before = with_missing(list, front);
        let after = with_missing(list, ids);
        assert forall|v: usize| #[trigger] after.contains(v) <==> list.contains(v) || ids.contains(
            v,
        ) by {
            assert(before.contains(v) <==> list.contains(v) || front.contains(v));
            if front.contains(v) {
                assert(ids[front.index_of(v)] == v);
            }
            if before.contains(v) {
                assert(after[before.index_of(v)] == v);
            }
            if v == ids.last() {
                assert(ids[ids.len() - 1] == v);
                if !before.contains(v) {
                    assert(after[before.len() as int] == v);
                }
            }
            if ids.contains(v) && v != ids.last() {
                assert(front[ids.index_of(v)] == v);
            }
            if after.contains(v) && v != ids.last() {
                let i = after.index_of(v);
                if i < before.len() {
                    assert(before[i] == v);
                }
            }
        }
    } else {
        assert(with_missing(list, ids) == list);
    }
}

/// The orders that a layout ends with are those of one of the sweeps over its rows: the first
/// of those that leave the fewest crossings.
pub proof fn law_orders_are_those_of_the_best_sweep(
    s: Segmented,
    ids: Seq<usize>,
    root: usize,
    sweeps: int,
) -> (j: int)
    requires
        sweeps > 0,
    ensures
        ({
            let rows = first_rows(s, ids, root);
            is_best_sweep(
                wiring(s, room(ids)),
                rows,
                row_orders(rows, zeros(room(ids)), rows.len() as int),
                sweeps,
                j,
                best_orders(s, ids, root, sweeps),
            )
        }),
{
    let rows = first_rows(s, ids, root);
    law_search_finds_the_best_sweep(
        wiring(s, room(ids)),
        rows,
        row_orders(rows, zeros(room(ids)), rows.len() as int),
        sweeps,
    )
}

/// The sweeps start from rows whose nodes are ordered by their places.
pub proof fn law_nodes_start_at_their_places(rows: Seq<Seq<usize>>, orders: Seq<usize>, k: int, r: int, i: int)
    requires
        0 <= r < k <= rows.len(),
        0 <= i < rows[r].len(),
        forall|q: int| 0 <= q < k ==> (#[trigger] rows[q]).no_duplicates(),
        forall|q: int| 0 <= q < k && q != r ==> !(#[trigger] rows[q]).contains(rows[r][i]),
        rows[r].len() <= usize::MAX,
        orders.len() <= usize::MAX,
        rows[r][i] < orders.len(),
    ensures
        row_orders(rows, orders, k).len() == orders.len(),
        row_orders(rows, orders, k)[rows[r][i] as int] == i,
    decreases k,
{
    let v = rows[r][i];
    lemma_row_orders_len(rows, orders, k - 1);
    let before = row_orders(rows, orders, k - 1);
    let row = rows[k - 1];
    lemma_flat_vertices(row);
    crate::triskel::lanes::lemma_seats(vertices(row), v);
    crate::triskel::lanes::lemma_seated(vertices(row), before, before);
    if r == k - 1 {
        assert(flat(vertices(row))[i] == Slot::Vertex(v));
        assert(flat(vertices(row)).no_duplicates()) by {
            assert forall|a: int, b: int|
                0 <= a < row.len() && 0 <= b < row.len() && a != b implies flat(vertices(row))[a]
                != flat(vertices(row))[b] by {
                assert(row[a] != row[b]);
            }
        }
        law_vertices_sit_at_their_places(vertices(row), before, i, v);
    } else {
        law_nodes_start_at_their_places(rows, orders, k - 1, r, i);
        assert(!row.contains(v));
        assert(!flat(vertices(row)).contains(Slot::Vertex(v)));
    }
}

proof fn lemma_row_orders_len(rows: Seq<Seq<usize>>, orders: Seq<usize>, k: int)
    ensures
        row_orders(rows, orders, k).len() == orders.len(),
    decreases k,
{
    if k > 0 {
        lemma_row_orders_len(rows, orders, k - 1);
        lemma_len(vertices(rows[k - 1]), row_orders(rows, orders, k - 1));
    }
}

proof fn lemma_len(row: Seq<Block>, orders: Seq<usize>)
    ensures
        seated(row, orders).len() == orders.len(),
    decreases row.len(),
{
    if row.len() > 0 {
        lemma_len(row.drop_last(), orders);
    }
}

// Depth-first walks.

/// A node that the walk has met has `x` for a child, and no smaller one that the walk has not
/// met; no node met later has any child left.
pub open spec fn comes_next(ahead: Seq<Seq<usize>>, met: Seq<usize>, j: int, x: usize) -> bool {
    &&& 0 <= j < met.len()
    &&& ahead[met[j] as int].contains(x)
    &&& !met.contains(x)
    &&& forall|c: usize| #[trigger]
        ahead[met[j] as int].contains(c) && !met.contains(c) ==> x <= c
    &&& forall|i: int, c: usize|
        j < i < met.len() && #[trigger] ahead[met[i] as int].contains(c) ==> met.contains(c)
}

/// The walk goes on to `x` from one of the nodes that it has met.
pub open spec fn goes_on_to(ahead: Seq<Seq<usize>>, met: Seq<usize>, x: usize) -> bool {
    exists|j: int| #[trigger] comes_next(ahead, met, j, x)
}

/// Children are nodes.
pub open spec fn are_children(ahead: Seq<Seq<usize>>) -> bool {
    forall|v: int, c: usize|
        0 <= v < ahead.len() && #[trigger] ahead[v].contains(c) ==> c < ahead.len()
}

/// The numbers of a list in descending order.
proof fn lemma_descending(list: Seq<usize>)
    ensures
        forall|c: usize| #[trigger] descending(list).contains(c) <==> list.contains(c),
        forall|i: int, j: int|
            0 <= i < j < descending(list).len() ==> #[trigger] descending(list)[i]
                >= #[trigger] descending(list)[j],
{
    broadcast use vstd::seq_lib::group_to_multiset_ensures;

    let pairs = twice(list);
    let sorted = sorted_pairs(pairs);
    lemma_pairs_are_sorted(pairs);
    let up = wished(sorted);
    let out = descending(list);
    assert forall|c: usize| #[trigger] out.contains(c) <==> list.contains(c) by {
        if out.contains(c) {
            let i = out.index_of(c);
            let k = out.len() - 1 - i;
            assert(sorted[k].1 == c);
            assert(sorted.contains(sorted[k]));
            assert(pairs.to_multiset().count(sorted[k]) > 0);
            assert(pairs.contains(sorted[k]));
            let m = pairs.index_of(sorted[k]);
            assert(list[m] == c);
        }
        if list.contains(c) {
            let m = list.index_of(c);
            assert(pairs[m] == (c, c));
            assert(pairs.contains((c, c)));
            assert(sorted.to_multiset().count((c, c)) > 0);
            assert(sorted.contains((c, c)));
            let k = sorted.index_of((c, c));
            assert(up[k] == c);
            assert(out[out.len() - 1 - k] == c);
        }
    }
    assert forall|i: int| 0 <= i < sorted.len() implies (#[trigger] sorted[i]).0 == sorted[i].1 by {
        assert(sorted.contains(sorted[i]));
        assert(pairs.to_multiset().count(sorted[i]) > 0);
        assert(pairs.contains(sorted[i]));
        let m = pairs.index_of(sorted[i]);
        assert(pairs[m] == (list[m], list[m]));
    }
    assert forall|i: int, j: int| 0 <= i < j < out.len() implies #[trigger] out[i]
        >= #[trigger] out[j] by {
        let (a, b) = (out.len() - 1 - i, out.len() - 1 - j);
        assert(pair_le(sorted[b], sorted[a]));
    }
}

/// What is still to be visited: the children of the nodes met, those of later ones on top,
/// and the smallest of each on top. `own` tells whose children they are.
spec fn is_agenda(ahead: Seq<Seq<usize>>, stack: Seq<usize>, met: Seq<usize>, own: Seq<int>) -> bool {
    &&& met.no_duplicates()
    &&& own.len() == stack.len()
    &&& forall|i: int| 0 <= i < met.len() ==> #[trigger] met[i] < ahead.len()
    &&& forall|p: int|
        0 <= p < own.len() ==> 0 <= #[trigger] own[p] < met.len()
            && ahead[met[own[p]] as int].contains(stack[p])
    &&& forall|p: int, q: int| 0 <= p < q < own.len() ==> #[trigger] own[p] <= #[trigger] own[q]
    &&& forall|p: int, q: int|
        #![trigger stack[p], stack[q]]
        0 <= p < q < own.len() && own[p] == own[q] ==> stack[p] >= stack[q]
    &&& forall|j: int, c: usize|
        0 <= j < met.len() && #[trigger] ahead[met[j] as int].contains(c) && !met.contains(c)
            ==> is_pending(stack, own, j, c)
}

/// The child `c` of the j-th node met is still to be visited.
spec fn is_pending(stack: Seq<usize>, own: Seq<int>, j: int, c: usize) -> bool {
    exists|p: int| 0 <= p < own.len() && #[trigger] own[p] == j && stack[p] == c
}

/// Each node but the first comes next after those before it.
pub open spec fn is_depth_first(ahead: Seq<Seq<usize>>, list: Seq<usize>) -> bool {
    forall|i: int| 1 <= i < list.len() ==> #[trigger] goes_on_to(ahead, list.take(i), list[i])
}

#[verifier::rlimit(40)]
proof fn lemma_preorder(ahead: Seq<Seq<usize>>, stack: Seq<usize>, met: Seq<usize>, own: Seq<int>)
    requires
        are_children(ahead),
        is_agenda(ahead, stack, met, own),
        is_depth_first(ahead, met),
        met.len() > 0,
    ensures
        ({
            let list = preorder(ahead, stack, met);
            &&& met.is_prefix_of(list)
            &&& list.no_duplicates()
            &&& is_depth_first(ahead, list)
            &&& forall|i: int| 0 <= i < list.len() ==> #[trigger] list[i] < ahead.len()
            &&& list.len() >= ahead.len() || forall|i: int, c: usize|
                0 <= i < list.len() && #[trigger] ahead[list[i] as int].contains(c)
                    ==> list.contains(c)
        }),
    decreases ahead.len() - met.len(), stack.len(),
{
    if stack.len() == 0 || met.len() >= ahead.len() {
        if stack.len() == 0 {
            assert forall|i: int, c: usize|
                0 <= i < met.len() && #[trigger] ahead[met[i] as int].contains(
                    c,
                ) implies met.contains(c) by {
                if !met.contains(c) {
                    assert(is_pending(stack, own, i, c));
                }
            }
        }
    } else {
        let x = stack.last();
        let top = stack.len() - 1;
        let (rest, left) = (stack.drop_last(), own.drop_last());
        assert(own[top] < met.len());
        if met.contains(x) {
            assert(is_agenda(ahead, rest, met, left)) by {
                assert forall|j: int, c: usize|
                    0 <= j < met.len() && #[trigger] ahead[met[j] as int].contains(c)
                        && !met.contains(c) implies is_pending(rest, left, j, c) by {
                    assert(is_pending(stack, own, j, c));
                    let p = choose|p: int|
                        0 <= p < own.len() && #[trigger] own[p] == j && stack[p] == c;
                    assert(p < top);
                    assert(left[p] == j && rest[p] == c);
                }
                assert forall|p: int| 0 <= p < left.len() implies 0 <= #[trigger] left[p]
                    < met.len() && ahead[met[left[p]] as int].contains(rest[p]) by {
                    assert(own[p] == left[p] && stack[p] == rest[p]);
                }
                assert forall|p: int, q: int| 0 <= p < q < left.len() implies #[trigger] left[p]
                    <= #[trigger] left[q] by {
                    assert(own[p] <= own[q]);
                }
                assert forall|p: int, q: int|
                    #![trigger rest[p], rest[q]]
                    0 <= p < q < left.len() && left[p] == left[q] implies rest[p] >= rest[q] by {
                    assert(stack[p] >= stack[q]);
                }
            }
            lemma_preorder(ahead, rest, met, left);
        } else {
            let more = descending(ahead[x as int]);
            let next = met.push(x);
            let n = met.len() as int;
            let j = own[top];
            assert(ahead[met[j] as int].contains(x));
            assert(x < ahead.len());
            lemma_descending(ahead[x as int]);
            let own2 = left + Seq::new(more.len(), |p: int| n);
            let stack2 = rest + more;
            assert(comes_next(ahead, met, j, x)) by {
                assert forall|c: usize| #[trigger]
                    ahead[met[j] as int].contains(c) && !met.contains(c) implies x <= c by {
                    assert(is_pending(stack, own, j, c));
                    let p = choose|p: int|
                        0 <= p < own.len() && #[trigger] own[p] == j && stack[p] == c;
                    if p < top {
                        assert(stack[p] >= stack[top]);
                    }
                }
                assert forall|i: int, c: usize|
                    j < i < met.len() && #[trigger] ahead[met[i] as int].contains(
                        c,
                    ) implies met.contains(c) by {
                    if !met.contains(c) {
                        assert(is_pending(stack, own, i, c));
                        let p = choose|p: int|
                            0 <= p < own.len() && #[trigger] own[p] == i && stack[p] == c;
                        if p < top {
                            assert(own[p] <= own[top]);
                        }
                    }
                }
            }
            assert(is_depth_first(ahead, next)) by {
                assert forall|i: int| 1 <= i < next.len() implies #[trigger] goes_on_to(
                    ahead,
                    next.take(i),
                    next[i],
                ) by {
                    if i < n {
                        assert(next.take(i) =~= met.take(i));
                        assert(goes_on_to(ahead, met.take(i), met[i]));
                    } else {
                        assert(next.take(i) =~= met);
                    }
                }
            }
            lemma_agenda_grows(ahead, stack, met, own, more);
            assert(is_agenda(ahead, stack2, next, own2));
            lemma_preorder(ahead, stack2, next, own2);
            let list = preorder(ahead, stack2, next);
            assert(met.is_prefix_of(list)) by {
                assert(next.is_prefix_of(list));
                assert(met =~= list.take(n)) by {
                    assert(next =~= list.take(n + 1));
                    assert(list.take(n + 1).take(n) =~= list.take(n));
                    assert(next.take(n) =~= met);
                }
            }
        }
    }
}

/// The agenda after the node on top has been visited.
proof fn lemma_agenda_grows(ahead: Seq<Seq<usize>>, stack: Seq<usize>, met: Seq<usize>, own: Seq<int>, more: Seq<usize>)
    requires
        are_children(ahead),
        is_agenda(ahead, stack, met, own),
        stack.len() > 0,
        !met.contains(stack.last()),
        more == descending(ahead[stack.last() as int]),
    ensures
        is_agenda(
            ahead,
            stack.drop_last() + more,
            met.push(stack.last()),
            own.drop_last() + Seq::new(more.len(), |p: int| met.len() as int),
        ),
{
    let x = stack.last();
    let top = stack.len() - 1;
    let n = met.len() as int;
    let next = met.push(x);
    let (rest, left) = (stack.drop_last(), own.drop_last());
    let stack2 = rest + more;
    let own2 = left + Seq::new(more.len(), |p: int| n);
    lemma_descending(ahead[x as int]);
    assert(own[top] < met.len());
    assert(ahead[met[own[top]] as int].contains(x));
    assert forall|i: int| 0 <= i < next.len() implies #[trigger] next[i] < ahead.len() by {
        if i < n {
            assert(met[i] < ahead.len());
        } else {
            assert(met[own[top]] < ahead.len());
        }
    }
    assert forall|p: int| 0 <= p < own2.len() implies 0 <= #[trigger] own2[p] < next.len()
        && ahead[next[own2[p]] as int].contains(stack2[p]) by {
        if p < top {
            assert(own2[p] == own[p] && stack2[p] == stack[p]);
            assert(next[own[p]] == met[own[p]]);
        } else {
            assert(stack2[p] == more[p - top]);
            assert(more.contains(more[p - top]));
        }
    }
    assert forall|p: int, q: int| 0 <= p < q < own2.len() implies #[trigger] own2[p]
        <= #[trigger] own2[q] by {
        if p < top {
            assert(own2[p] == own[p]);
            if q < top {
                assert(own2[q] == own[q]);
            }
        }
    }
    assert forall|p: int, q: int|
        #![trigger stack2[p], stack2[q]]
        0 <= p < q < own2.len() && own2[p] == own2[q] implies stack2[p] >= stack2[q] by {
        if q < top {
            assert(own2[p] == own[p] && own2[q] == own[q]);
            assert(stack[p] >= stack[q]);
        } else if p < top {
            assert(own2[p] == own[p] && own[p] < n && own2[q] == n);
        } else {
            assert(stack2[p] == more[p - top] && stack2[q] == more[q - top]);
        }
    }
    assert forall|j: int, c: usize|
        0 <= j < next.len() && #[trigger] ahead[next[j] as int].contains(c) && !next.contains(
            c,
        ) implies is_pending(stack2, own2, j, c) by {
        assert(!met.contains(c)) by {
            if met.contains(c) {
                assert(next[met.index_of(c)] == c);
            }
        }
        assert(c != x) by {
            assert(next[n] == x);
        }
        if j < n {
            assert(next[j] == met[j]);
            assert(ahead[met[j] as int].contains(c));
            assert(is_pending(stack, own, j, c));
            let p = choose|p: int| 0 <= p < own.len() && #[trigger] own[p] == j && stack[p] == c;
            assert(p < top);
            assert(own2[p] == j && stack2[p] == c);
        } else {
            assert(more.contains(c));
            let k = more.index_of(c);
            assert(own2[top + k] == n && stack2[top + k] == c);
        }
    }
    assert(next.no_duplicates());
}

/// A depth-first walk starts at the root and meets no node twice. It always goes on to the
/// smallest child not yet met of the node that it met last among those that have such a
/// child, and ends when there is none.
pub proof fn law_walk_is_depth_first(ahead: Seq<Seq<usize>>, root: usize)
    requires
        are_children(ahead),
        root < ahead.len(),
    ensures
        ({
            let list = preorder(ahead, seq![root], Seq::empty());
            &&& list.len() > 0 && list[0] == root
            &&& list.no_duplicates()
            &&& is_depth_first(ahead, list)
            &&& forall|i: int, c: usize|
                0 <= i < list.len() && #[trigger] ahead[list[i] as int].contains(c)
                    ==> list.contains(c)
        }),
{
    let stack = seq![root];
    let met = Seq::<usize>::empty();
    let more = descending(ahead[root as int]);
    let next = met.push(root);
    assert(!met.contains(root));
    assert(stack.last() == root);
    let stack2 = stack.drop_last() + more;
    let own2 = Seq::new(more.len(), |p: int| 0int);
    lemma_descending(ahead[root as int]);
    assert(stack2 =~= more);
    assert(is_agenda(ahead, stack2, next, own2)) by {
        assert forall|p: int| 0 <= p < own2.len() implies 0 <= #[trigger] own2[p] < next.len()
            && ahead[next[own2[p]] as int].contains(stack2[p]) by {
            assert(more.contains(more[p]));
        }
        assert forall|j: int, c: usize|
            0 <= j < next.len() && #[trigger] ahead[next[j] as int].contains(c) && !next.contains(
                c,
            ) implies is_pending(stack2, own2, j, c) by {
            assert(more.contains(c));
            let k = more.index_of(c);
            assert(own2[k] == 0 && stack2[k] == c);
        }
    }
    lemma_preorder(ahead, stack2, next, own2);
    let list = preorder(ahead, stack, met);
    assert(list == preorder(ahead, stack2, next));
    assert(list[0] == root) by {
        assert(next[0] == root);
        assert(next.is_prefix_of(list));
    }
    assert forall|i: int, c: usize|
        0 <= i < list.len() && #[trigger] ahead[list[i] as int].contains(
            c,
        ) implies list.contains(c) by {
        if list.len() >= ahead.len() {
            assert(c < ahead.len());
            let ints = Seq::new(ahead.len(), |k: int| list[k] as int);
            assert(ints.no_duplicates()) by {
                assert forall|a: int, b: int|
                    0 <= a < ints.len() && 0 <= b < ints.len() && a != b implies ints[a]
                    != ints[b] by {
                    assert(list[a] != list[b]);
                }
            }
            crate::counting::lemma_distinct_fill_range(ints, 0, ahead.len() as int, c as int);
            let k = ints.index_of(c as int);
            assert(list[k] == c);
        }
    }
}

/// Where edges lead from layer to layer downwards, so do the neighbours that sweeps see.
pub proof fn law_sweeps_see_edges_lead_down(s: Segmented, n: nat)
    requires
        s.state.is_sound(),
        n <= usize::MAX,
        forall|e: usize| #[trigger]
            s.state.edges.contains_key(e) ==> layer_in(s.state, s.state.edges[e].from) < layer_in(
                s.state,
                s.state.edges[e].to,
            ) && s.state.edges[e].from < n && s.state.edges[e].to < n,
    ensures
        leads_on(wiring(s, n), levels(s.state, n)),
{
    let net = wiring(s, n);
    let level = levels(s.state, n);
    assert forall|v: int, i: int| 0 <= v < level.len() && 0 <= i < net.back[v].len() implies level[#[trigger] net.back[v][i] as int]
        < level[v] by {
        let node = v as usize;
        let list = s.state.nodes[node].edges;
        assert(s.state.nodes.contains_key(node));
        let places = law_relatives_are_other_ends(s.state, node, list, false);
        let e = list[places[i]];
        assert(list.contains(e));
        assert(s.state.edges.contains_key(e));
    }
    assert forall|v: int, i: int| 0 <= v < level.len() && 0 <= i < net.ahead[v].len() implies level[#[trigger] net.ahead[v][i] as int]
        > level[v] by {
        let node = v as usize;
        let list = s.state.nodes[node].edges;
        assert(s.state.nodes.contains_key(node));
        let places = law_relatives_are_other_ends(s.state, node, list, true);
        let e = list[places[i]];
        assert(list.contains(e));
        assert(s.state.edges.contains_key(e));
    }
}

} // verus!
