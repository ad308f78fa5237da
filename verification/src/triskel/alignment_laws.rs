//! What holds of cells stacked in blocks.
use crate::triskel::alignment::{
    aligned, cell_at, inner_from, is_cell_grid, is_conflict, is_inner_link, left_bound,
    lemma_near_is_own, near_links, other_end, place, right_bound, row_at, sorted_near, Blocks,
};
use crate::triskel::cells::Cells;
use vstd::prelude::*;

verus! {

/// Links lead from a row to the next one.
pub open spec fn links_step_down(cells: Cells) -> bool {
    forall|i: int|
        #![trigger cells.links@[i]]
        0 <= i < cells.links@.len() ==> cells.rank@[cells.links@[i].parent as int] + 1
            == cells.rank@[cells.links@[i].child as int]
}

/// How many rows are stacked before that of a cell.
pub open spec fn depth(cells: Cells, down: bool, c: int) -> int {
    if down {
        cells.rank@[c] as int
    } else {
        cells.layers@.len() - 1 - cells.rank@[c]
    }
}

/// The cell that `c` was aligned with.
pub open spec fn upper(cells: Cells, down: bool, over: Seq<Option<usize>>, c: int) -> int {
    other_end(cells, over[c]->Some_0 as int, down) as int
}

/// A cell that was aligned stands behind the one that it was aligned with and belongs to its
/// block; the others start a block.
spec fn stands(cells: Cells, down: bool, b: Blocks, c: int) -> bool {
    &&& b.root[c] < cells.pos@.len()
    &&& b.align[c] < cells.pos@.len()
    &&& b.via[b.root[c] as int] is None
    &&& match b.via[c] {
        Some(i) => {
            let u = other_end(cells, i as int, down) as int;
            &&& i < cells.links@.len()
            &&& other_end(cells, i as int, !down) == c
            &&& b.align[u] == c
            &&& b.root[c] == b.root[u]
            &&& depth(cells, down, b.root[c] as int) < depth(cells, down, c)
        },
        None => b.root[c] == c,
    }
    &&& b.align[c] == b.root[c] || (b.via[b.align[c] as int] is Some && upper(
        cells,
        down,
        b.via,
        b.align[c] as int,
    ) == c)
}

/// Two cells of a row were aligned with cells in the same order.
spec fn keeps_order(cells: Cells, down: bool, mirror: bool, b: Blocks, a: int, c: int) -> bool {
    depth(cells, down, a) == depth(cells, down, c) && place(cells, mirror, a as usize) < place(
        cells,
        mirror,
        c as usize,
    ) && b.via[a] is Some && b.via[c] is Some ==> place(
        cells,
        mirror,
        upper(cells, down, b.via, a) as usize,
    ) < place(cells, mirror, upper(cells, down, b.via, c) as usize)
}

/// The cell comes before the k-th of the t-th row.
spec fn is_done(cells: Cells, down: bool, mirror: bool, t: int, k: int, c: int) -> bool {
    depth(cells, down, c) < t || (depth(cells, down, c) == t && place(cells, mirror, c as usize)
        < k)
}

/// In row `t`, cells were aligned up to the bound.
spec fn is_bounded(cells: Cells, down: bool, mirror: bool, b: Blocks, t: int, c: int) -> bool {
    depth(cells, down, c) == t && b.via[c] is Some ==> place(
        cells,
        mirror,
        upper(cells, down, b.via, c) as usize,
    ) <= b.bound
}

/// Cells stacked up to the k-th of the t-th row.
spec fn is_stacked(cells: Cells, down: bool, mirror: bool, b: Blocks, t: int, k: int) -> bool {
    let n = cells.pos@.len() as int;
    &&& b.root.len() == n
    &&& b.align.len() == n
    &&& b.via.len() == n
    &&& forall|c: int| 0 <= c < n ==> #[trigger] stands(cells, down, b, c)
    &&& forall|c: int|
        0 <= c < n && !(#[trigger] is_done(cells, down, mirror, t, k, c)) ==> b.via[c] is None
    &&& forall|a: int, c: int|
        0 <= a < n && 0 <= c < n ==> #[trigger] keeps_order(cells, down, mirror, b, a, c)
    &&& forall|c: int| 0 <= c < n ==> #[trigger] is_bounded(cells, down, mirror, b, t, c)
    &&& b.bound >= -1
}

spec fn is_plan(cells: Cells, marked: Seq<bool>) -> bool {
    &&& is_cell_grid(cells)
    &&& links_step_down(cells)
    &&& marked.len() == cells.links@.len()
}

/// The ends of a link are cells of neighbouring rows.
proof fn lemma_ends(cells: Cells, down: bool, i: int)
    requires
        is_cell_grid(cells),
        links_step_down(cells),
        0 <= i < cells.links@.len(),
    ensures
        other_end(cells, i, down) < cells.pos@.len(),
        other_end(cells, i, !down) < cells.pos@.len(),
        depth(cells, down, other_end(cells, i, down) as int) + 1 == depth(
            cells,
            down,
            other_end(cells, i, !down) as int,
        ),
        0 <= depth(cells, down, other_end(cells, i, down) as int),
{
    let link = cells.links@[i];
    assert(link.parent < cells.pos@.len() && link.child < cells.pos@.len());
    assert(cells.rank@[link.parent as int] < cells.layers@.len());
    assert(cells.rank@[link.child as int] < cells.layers@.len());
}

/// Aligning the k-th cell of a row over one of its links.
#[verifier::rlimit(40)]
proof fn lemma_try(cells: Cells, marked: Seq<bool>, down: bool, mirror: bool, b: Blocks, t: int, k: int, v: usize, m: int)
    requires
        is_plan(cells, marked),
        v < cells.pos@.len(),
        depth(cells, down, v as int) == t,
        place(cells, mirror, v) == k,
        is_stacked(cells, down, mirror, b, t, k + 1),
        0 <= m < sorted_near(cells, v, down, mirror).len(),
    ensures
        is_stacked(
            cells,
            down,
            mirror,
            b.try_align(cells, marked, down, mirror, v, m),
            t,
            k + 1,
        ),
        ({
            let after = b.try_align(cells, marked, down, mirror, v, m);
            let (p, i) = sorted_near(cells, v, down, mirror)[m];
            &&& b.via[v as int] is Some ==> after == b
            &&& b.via[v as int] is None && !marked[i as int] && b.bound < p ==> after.via[v as int]
                == Some(i)
            &&& b.via[v as int] is None && (marked[i as int] || b.bound >= p) ==> after == b
            &&& after.via == b.via || after.via == b.via.update(v as int, Some(i))
        }),
{
    let n = cells.pos@.len() as int;
    let after = b.try_align(cells, marked, down, mirror, v, m);
    let (p, i) = sorted_near(cells, v, down, mirror)[m];
    let u = other_end(cells, i as int, down) as int;
    lemma_near_is_own(cells, v, down, mirror, m);
    lemma_ends(cells, down, i as int);
    let w = v as int;
    assert(stands(cells, down, b, w));
    assert(stands(cells, down, b, u));
    // What is aligned with a cell of this row comes in the next.
    assert forall|c: int| 0 <= c < n && #[trigger] b.via[c] is Some implies upper(
        cells,
        down,
        b.via,
        c,
    ) != w by {
        assert(stands(cells, down, b, c));
        lemma_ends(cells, down, b.via[c]->Some_0 as int);
        if upper(cells, down, b.via, c) == w {
            assert(depth(cells, down, c) == t + 1);
            assert(!is_done(cells, down, mirror, t, k + 1, c));
        }
    }
    if b.via[w] is Some {
        let i0 = b.via[w]->Some_0 as int;
        lemma_ends(cells, down, i0);
        assert(b.align[w] != w) by {
            if b.align[w] == w {
                assert(b.root[w] != w);
                assert(upper(cells, down, b.via, w) != w);
            }
        }
        assert(after == b);
    } else {
        assert(b.align[w] == w) by {
            if b.align[w] != b.root[w] {
                let d = b.align[w] as int;
                assert(b.via[d] is Some);
            }
        }
        if !marked[i as int] && b.bound < p {
            let r = b.root[u] as int;
            assert(r != w) by {
                if b.via[u] is None {
                    assert(r == u);
                }
            }
            assert(depth(cells, down, r) <= depth(cells, down, u));
            assert forall|c: int| 0 <= c < n implies #[trigger] stands(cells, down, after, c) by {
                assert(stands(cells, down, b, c));
                assert(stands(cells, down, b, r));
                if c != w {
                    assert(b.root[c] != w) by {
                        if b.root[c] == w {
                            if b.via[c] is Some {
                                assert(depth(cells, down, c) > t);
                                assert(!is_done(cells, down, mirror, t, k + 1, c));
                            }
                        }
                    }
                    if b.via[c] is Some {
                        let x = upper(cells, down, b.via, c);
                        lemma_ends(cells, down, b.via[c]->Some_0 as int);
                        assert(x != w);
                        assert(x != u) by {
                            if x == u {
                                assert(depth(cells, down, c) == t);
                                assert(is_bounded(cells, down, mirror, b, t, c));
                            }
                        }
                        assert(after.align[x] == c);
                    }
                    if c != u && b.align[c] != b.root[c] {
                        assert(b.align[c] != w);
                    }
                }
            }
            assert forall|a: int, c: int| 0 <= a < n && 0 <= c < n implies #[trigger] keeps_order(
                cells,
                down,
                mirror,
                after,
                a,
                c,
            ) by {
                assert(keeps_order(cells, down, mirror, b, a, c));
                if a == w && after.via[c] is Some && c != w {
                    assert(is_done(cells, down, mirror, t, k + 1, c));
                }
                if c == w && after.via[a] is Some && a != w {
                    assert(is_bounded(cells, down, mirror, b, t, a));
                }
            }
            assert forall|c: int| 0 <= c < n implies #[trigger] is_bounded(
                cells,
                down,
                mirror,
                after,
                t,
                c,
            ) by {
                assert(is_bounded(cells, down, mirror, b, t, c));
            }
            assert forall|c: int|
                0 <= c < n && !(#[trigger] is_done(
                    cells,
                    down,
                    mirror,
                    t,
                    k + 1,
                    c,
                )) implies after.via[c] is None by {
                assert(c != w);
            }
        }
    }
}

/// The k-th cell of a row.
proof fn lemma_cell_at(cells: Cells, down: bool, mirror: bool, t: int, k: int)
    requires
        is_cell_grid(cells),
        0 <= t < cells.layers@.len(),
        0 <= k < cells.layers@[row_at(cells, down, t)]@.len(),
    ensures
        ({
            let v = cell_at(cells, mirror, row_at(cells, down, t), k);
            &&& v < cells.pos@.len()
            &&& depth(cells, down, v as int) == t
            &&& place(cells, mirror, v) == k
        }),
{
    let r = row_at(cells, down, t);
    let row = cells.layers@[r]@;
    let at = if mirror {
        row.len() - 1 - k
    } else {
        k
    };
    assert(cells.layers@[r]@[at] == cell_at(cells, mirror, r, k));
    let width: usize = cells.layers@[r].len();
}

proof fn lemma_row(cells: Cells, marked: Seq<bool>, down: bool, mirror: bool, b: Blocks, t: int, k: int)
    requires
        is_plan(cells, marked),
        0 <= t < cells.layers@.len(),
        0 <= k <= cells.layers@[row_at(cells, down, t)]@.len(),
        is_stacked(cells, down, mirror, Blocks { bound: -1, ..b }, t, 0),
    ensures
        is_stacked(
            cells,
            down,
            mirror,
            b.align_row(cells, marked, down, mirror, row_at(cells, down, t), k),
            t,
            k,
        ),
    decreases k,
{
    if k > 0 {
        let r = row_at(cells, down, t);
        lemma_row(cells, marked, down, mirror, b, t, k - 1);
        lemma_cell_at(cells, down, mirror, t, k - 1);
        let before = b.align_row(cells, marked, down, mirror, r, k - 1);
        let v = cell_at(cells, mirror, r, k - 1);
        lemma_more_done(cells, down, mirror, before, t, k - 1);
        let d = sorted_near(cells, v, down, mirror).len() as int;
        if d > 0 {
            lemma_try(cells, marked, down, mirror, before, t, k - 1, v, (d - 1) / 2);
            let between = before.try_align(cells, marked, down, mirror, v, (d - 1) / 2);
            lemma_try(cells, marked, down, mirror, between, t, k - 1, v, d / 2);
        }
    }
}

proof fn lemma_more_done(cells: Cells, down: bool, mirror: bool, b: Blocks, t: int, k: int)
    requires
        is_stacked(cells, down, mirror, b, t, k),
    ensures
        is_stacked(cells, down, mirror, b, t, k + 1),
{
    assert forall|c: int|
        0 <= c < cells.pos@.len() && !(#[trigger] is_done(
            cells,
            down,
            mirror,
            t,
            k + 1,
            c,
        )) implies b.via[c] is None by {
        assert(!is_done(cells, down, mirror, t, k, c));
    }
}

/// The rows before row `t` are stacked.
proof fn lemma_aligned(cells: Cells, marked: Seq<bool>, down: bool, mirror: bool, t: int)
    requires
        is_plan(cells, marked),
        0 <= t <= cells.layers@.len(),
    ensures
        is_stacked(
            cells,
            down,
            mirror,
            Blocks { bound: -1, ..aligned(cells, marked, down, mirror, t) },
            t,
            0,
        ),
    decreases t,
{
    let n = cells.pos@.len() as int;
    let b = aligned(cells, marked, down, mirror, t);
    let bare = Blocks { bound: -1, ..b };
    let total: usize = cells.pos.len();
    if t == 0 {
        assert forall|c: int| 0 <= c < n implies #[trigger] stands(cells, down, bare, c) by {
            assert(bare.root[c] == c && bare.align[c] == c && bare.via[c] is None);
        }
    } else {
        let r = row_at(cells, down, t - 1);
        let width = cells.layers@[r]@.len() as int;
        lemma_aligned(cells, marked, down, mirror, t - 1);
        let before = aligned(cells, marked, down, mirror, t - 1);
        lemma_row(cells, marked, down, mirror, before, t - 1, width);
        assert(b == before.align_row(cells, marked, down, mirror, r, width));
        assert forall|c: int| 0 <= c < n implies #[trigger] stands(cells, down, bare, c) by {
            assert(stands(cells, down, b, c));
        }
        assert forall|a: int, c: int| 0 <= a < n && 0 <= c < n implies #[trigger] keeps_order(
            cells,
            down,
            mirror,
            bare,
            a,
            c,
        ) by {
            assert(keeps_order(cells, down, mirror, b, a, c));
        }
        assert forall|c: int|
            0 <= c < n && !(#[trigger] is_done(cells, down, mirror, t, 0, c)) implies bare.via[c] is None by {
            assert(!is_done(cells, down, mirror, t - 1, width, c));
        }
        assert forall|c: int| 0 <= c < n implies #[trigger] is_bounded(
            cells,
            down,
            mirror,
            bare,
            t,
            c,
        ) by {
            assert(stands(cells, down, b, c));
            if depth(cells, down, c) == t {
                assert(!is_done(cells, down, mirror, t - 1, width, c));
            }
        }
    }
}

/// The blocks of all cells.
pub open spec fn blocks_of(cells: Cells, marked: Seq<bool>, down: bool, mirror: bool) -> Blocks {
    aligned(cells, marked, down, mirror, cells.layers@.len() as int)
}

proof fn lemma_blocks(cells: Cells, marked: Seq<bool>, down: bool, mirror: bool)
    requires
        is_plan(cells, marked),
    ensures
        ({
            let b = blocks_of(cells, marked, down, mirror);
            let n = cells.pos@.len() as int;
            &&& b.root.len() == n
            &&& b.align.len() == n
            &&& b.via.len() == n
            &&& forall|c: int| 0 <= c < n ==> #[trigger] stands(cells, down, b, c)
            &&& forall|a: int, c: int|
                0 <= a < n && 0 <= c < n ==> #[trigger] keeps_order(cells, down, mirror, b, a, c)
        }),
{
    let n = cells.pos@.len() as int;
    let b = blocks_of(cells, marked, down, mirror);
    let height = cells.layers@.len() as int;
    lemma_aligned(cells, marked, down, mirror, height);
    let bare = Blocks { bound: -1, ..b };
    assert forall|c: int| 0 <= c < n implies #[trigger] stands(cells, down, b, c) by {
        assert(stands(cells, down, bare, c));
    }
    assert forall|a: int, c: int| 0 <= a < n && 0 <= c < n implies #[trigger] keeps_order(
        cells,
        down,
        mirror,
        b,
        a,
        c,
    ) by {
        assert(keeps_order(cells, down, mirror, bare, a, c));
    }
}

/// A cell is aligned with a cell of the row before, over a link of its own, and belongs to
/// the block of that cell. A cell that is aligned with none starts a block.
pub proof fn law_aligned_cells_share_a_block(cells: Cells, marked: Seq<bool>, down: bool, mirror: bool, c: int)
    requires
        is_cell_grid(cells),
        links_step_down(cells),
        marked.len() == cells.links@.len(),
        0 <= c < cells.pos@.len(),
    ensures
        ({
            let b = blocks_of(cells, marked, down, mirror);
            match b.via[c] {
                Some(i) => {
                    let u = upper(cells, down, b.via, c);
                    &&& i < cells.links@.len()
                    &&& cells.links@[i as int].child == if down { c } else { u }
                    &&& cells.links@[i as int].parent == if down { u } else { c }
                    &&& 0 <= u < cells.pos@.len()
                    &&& b.root[c] == b.root[u]
                    &&& b.root[c] != c
                    &&& b.align[u] == c
                },
                None => b.root[c] == c,
            }
        }),
{
    lemma_blocks(cells, marked, down, mirror);
    let b = blocks_of(cells, marked, down, mirror);
    assert(stands(cells, down, b, c));
    if b.via[c] is Some {
        lemma_ends(cells, down, b.via[c]->Some_0 as int);
    }
}

/// Two distinct cells of a row belong to different blocks.
pub proof fn law_blocks_have_one_cell_per_row(cells: Cells, marked: Seq<bool>, down: bool, mirror: bool, a: int, c: int)
    requires
        is_cell_grid(cells),
        links_step_down(cells),
        marked.len() == cells.links@.len(),
        0 <= a < cells.pos@.len(),
        0 <= c < cells.pos@.len(),
        a != c,
        cells.rank@[a] == cells.rank@[c],
    ensures
        blocks_of(cells, marked, down, mirror).root[a] != blocks_of(
            cells,
            marked,
            down,
            mirror,
        ).root[c],
    decreases depth(cells, down, a),
{
    lemma_blocks(cells, marked, down, mirror);
    let b = blocks_of(cells, marked, down, mirror);
    assert(stands(cells, down, b, a));
    assert(stands(cells, down, b, c));
    assert(cells.rank@[a] < cells.layers@.len());
    if b.via[a] is Some && b.via[c] is Some {
        let (x, y) = (upper(cells, down, b.via, a), upper(cells, down, b.via, c));
        lemma_ends(cells, down, b.via[a]->Some_0 as int);
        lemma_ends(cells, down, b.via[c]->Some_0 as int);
        if x != y {
            assert(cells.rank@[x] == cells.rank@[y]);
            law_blocks_have_one_cell_per_row(cells, marked, down, mirror, x, y);
        }
    }
}

/// Two alignments between the same two rows neither cross nor share an end: the cells that
/// are aligned stand in the same order as those they are aligned with.
pub proof fn law_alignments_do_not_cross(cells: Cells, marked: Seq<bool>, down: bool, mirror: bool, a: int, c: int)
    requires
        is_cell_grid(cells),
        links_step_down(cells),
        marked.len() == cells.links@.len(),
        0 <= a < cells.pos@.len(),
        0 <= c < cells.pos@.len(),
        cells.rank@[a] == cells.rank@[c],
        cells.pos@[a] < cells.pos@[c],
        blocks_of(cells, marked, down, mirror).via[a] is Some,
        blocks_of(cells, marked, down, mirror).via[c] is Some,
    ensures
        ({
            let over = blocks_of(cells, marked, down, mirror).via;
            let (x, y) = (upper(cells, down, over, a), upper(cells, down, over, c));
            &&& cells.rank@[x] == cells.rank@[y]
            &&& cells.pos@[x] < cells.pos@[y]
        }),
{
    lemma_blocks(cells, marked, down, mirror);
    let b = blocks_of(cells, marked, down, mirror);
    let (x, y) = (upper(cells, down, b.via, a), upper(cells, down, b.via, c));
    assert(stands(cells, down, b, a));
    assert(stands(cells, down, b, c));
    lemma_ends(cells, down, b.via[a]->Some_0 as int);
    lemma_ends(cells, down, b.via[c]->Some_0 as int);
    assert(keeps_order(cells, down, mirror, b, a, c));
    assert(keeps_order(cells, down, mirror, b, c, a));
    let total: usize = cells.pos.len();
    assert(a as usize == a && c as usize == c && x as usize == x && y as usize == y);
    assert(cells.rank@[a] < cells.layers@.len());
    assert(cells.rank@[c] < cells.layers@.len());
    assert(cells.rank@[x] < cells.layers@.len());
    assert(cells.rank@[y] < cells.layers@.len());
    let width: usize = cells.layers@[cells.rank@[a] as int].len();
    let other: usize = cells.layers@[cells.rank@[x] as int].len();
}

/// The cell reached from `c` after `k` steps.
pub open spec fn follow(align: Seq<usize>, c: int, k: nat) -> int
    decreases k,
{
    if k == 0 {
        c
    } else {
        align[follow(align, c, (k - 1) as nat)] as int
    }
}

/// A cell is reached from the first of its block in as many steps as there are rows between.
proof fn lemma_reached(cells: Cells, marked: Seq<bool>, down: bool, mirror: bool, c: int)
    requires
        is_plan(cells, marked),
        0 <= c < cells.pos@.len(),
    ensures
        ({
            let b = blocks_of(cells, marked, down, mirror);
            let r = b.root[c] as int;
            let k = depth(cells, down, c) - depth(cells, down, r);
            k >= 0 && follow(b.align, r, k as nat) == c
        }),
    decreases depth(cells, down, c),
{
    lemma_blocks(cells, marked, down, mirror);
    let b = blocks_of(cells, marked, down, mirror);
    assert(stands(cells, down, b, c));
    assert(cells.rank@[c] < cells.layers@.len());
    if b.via[c] is Some {
        let u = upper(cells, down, b.via, c);
        lemma_ends(cells, down, b.via[c]->Some_0 as int);
        lemma_reached(cells, marked, down, mirror, u);
    }
}

/// The steps from a cell on, to the one that leads back to the first of its block.
proof fn lemma_ring_from(cells: Cells, marked: Seq<bool>, down: bool, mirror: bool, r: int, k: nat) -> (m: nat)
    requires
        is_plan(cells, marked),
        0 <= r < cells.pos@.len(),
        ({
            let b = blocks_of(cells, marked, down, mirror);
            &&& b.root[r] == r
            &&& forall|i: nat|
                i <= k ==> is_ring_cell(cells, down, b, r, #[trigger] follow(b.align, r, i), i)
        }),
    ensures
        ({
            let b = blocks_of(cells, marked, down, mirror);
            &&& m > k
            &&& follow(b.align, r, m) == r
            &&& forall|i: nat|
                i < m ==> is_ring_cell(cells, down, b, r, #[trigger] follow(b.align, r, i), i)
        }),
    decreases cells.layers@.len() - k,
{
    lemma_blocks(cells, marked, down, mirror);
    let b = blocks_of(cells, marked, down, mirror);
    let c = follow(b.align, r, k);
    assert(is_ring_cell(cells, down, b, r, c, k));
    assert(stands(cells, down, b, c));
    assert(cells.rank@[c] < cells.layers@.len());
    assert(cells.rank@[r] < cells.layers@.len());
    let next = follow(b.align, r, k + 1);
    assert(next == b.align[c]);
    if b.align[c] == b.root[c] {
        k + 1
    } else {
        assert(stands(cells, down, b, next));
        lemma_ends(cells, down, b.via[next]->Some_0 as int);
        assert(is_ring_cell(cells, down, b, r, next, k + 1));
        assert forall|i: nat| i <= k + 1 implies is_ring_cell(
            cells,
            down,
            b,
            r,
            #[trigger] follow(b.align, r, i),
            i,
        ) by {}
        lemma_ring_from(cells, marked, down, mirror, r, k + 1)
    }
}

/// The cell belongs to the block of `r` and stands `i` rows behind it.
pub open spec fn is_ring_cell(cells: Cells, down: bool, b: Blocks, r: int, c: int, i: nat) -> bool {
    &&& 0 <= c < cells.pos@.len()
    &&& b.root[c] == r
    &&& depth(cells, down, c) == depth(cells, down, r) + i
}

/// From the first cell of a block the steps pass each cell of the block once, row by row,
/// and lead back to the first.
pub proof fn law_blocks_are_rings(cells: Cells, marked: Seq<bool>, down: bool, mirror: bool, r: int) -> (m: nat)
    requires
        is_cell_grid(cells),
        links_step_down(cells),
        marked.len() == cells.links@.len(),
        0 <= r < cells.pos@.len(),
        blocks_of(cells, marked, down, mirror).root[r] == r,
    ensures
        ({
            let b = blocks_of(cells, marked, down, mirror);
            &&& m > 0
            &&& follow(b.align, r, m) == r
            &&& forall|i: nat|
                i < m ==> is_ring_cell(cells, down, b, r, #[trigger] follow(b.align, r, i), i)
            &&& forall|c: int|
                0 <= c < cells.pos@.len() && #[trigger] b.root[c] == r ==> exists|i: nat|
                    i < m && #[trigger] follow(b.align, r, i) == c
        }),
{
    lemma_blocks(cells, marked, down, mirror);
    let b = blocks_of(cells, marked, down, mirror);
    assert forall|i: nat| i <= 0 implies is_ring_cell(
        cells,
        down,
        b,
        r,
        #[trigger] follow(b.align, r, i),
        i,
    ) by {}
    let m = lemma_ring_from(cells, marked, down, mirror, r, 0);
    assert forall|c: int| 0 <= c < cells.pos@.len() && #[trigger] b.root[c] == r implies exists|
        i: nat,
    |
        i < m && #[trigger] follow(b.align, r, i) == c by {
        lemma_reached(cells, marked, down, mirror, c);
        let k = (depth(cells, down, c) - depth(cells, down, r)) as nat;
        if k >= m {
            lemma_cell_behind(cells, marked, down, mirror, c, m);
            assert(false);
        }
        assert(follow(b.align, r, k) == c);
    }
    m
}

/// On the way to a cell of a block, each cell stands one row behind the one before.
proof fn lemma_cell_behind(cells: Cells, marked: Seq<bool>, down: bool, mirror: bool, c: int, i: nat)
    requires
        is_plan(cells, marked),
        0 <= c < cells.pos@.len(),
        ({
            let b = blocks_of(cells, marked, down, mirror);
            i <= depth(cells, down, c) - depth(cells, down, b.root[c] as int)
        }),
    ensures
        ({
            let b = blocks_of(cells, marked, down, mirror);
            let r = b.root[c] as int;
            is_ring_cell(cells, down, b, r, follow(b.align, r, i), i)
        }),
    decreases depth(cells, down, c),
{
    lemma_blocks(cells, marked, down, mirror);
    let b = blocks_of(cells, marked, down, mirror);
    let r = b.root[c] as int;
    assert(stands(cells, down, b, c));
    assert(cells.rank@[c] < cells.layers@.len());
    if i == depth(cells, down, c) - depth(cells, down, r) {
        lemma_reached(cells, marked, down, mirror, c);
    } else {
        let u = upper(cells, down, b.via, c);
        lemma_ends(cells, down, b.via[c]->Some_0 as int);
        lemma_cell_behind(cells, marked, down, mirror, u, i);
    }
}

// Medians.

/// The links of a cell are listed once each, by the places of their other ends, and links
/// with the same other end by their numbers.
pub proof fn law_links_are_listed_by_place(cells: Cells, v: usize, down: bool, mirror: bool)
    ensures
        ({
            let near = sorted_near(cells, v, down, mirror);
            &&& forall|j: int|
                0 <= j < near.len() ==> (#[trigger] near[j]).1 < cells.links@.len() && other_end(
                    cells,
                    near[j].1 as int,
                    !down,
                ) == v && near[j].0 == place(cells, mirror, other_end(cells, near[j].1 as int, down))
            &&& forall|i: int|
                #![trigger cells.links@[i]]
                0 <= i < cells.links@.len() && other_end(cells, i, !down) == v
                    ==> exists|j: int| 0 <= j < near.len() && (#[trigger] near[j]).1 == i
            &&& forall|j: int, k: int|
                0 <= j < k < near.len() ==> (#[trigger] near[j]).0 < (#[trigger] near[k]).0
                    || near[j].0 == near[k].0 && near[j].1 < near[k].1
        }),
{
    broadcast use vstd::seq_lib::group_to_multiset_ensures;

    let near = sorted_near(cells, v, down, mirror);
    let total: usize = cells.links.len();
    let list = near_links(cells, v, down, total as int);
    let pairs = Seq::new(
        list.len(),
        |k: int| (place(cells, mirror, other_end(cells, list[k] as int, down)), list[k]),
    );
    crate::sorting::lemma_pairs_are_sorted(pairs);
    lemma_all_near(cells, v, down, total as int);
    assert forall|j: int| 0 <= j < near.len() implies (#[trigger] near[j]).1 < cells.links@.len()
        && other_end(cells, near[j].1 as int, !down) == v && near[j].0 == place(
        cells,
        mirror,
        other_end(cells, near[j].1 as int, down),
    ) by {
        lemma_near_is_own(cells, v, down, mirror, j);
    }
    assert forall|i: int|
        #![trigger cells.links@[i]]
        0 <= i < cells.links@.len() && other_end(cells, i, !down) == v implies exists|
        j: int,
    |
        0 <= j < near.len() && (#[trigger] near[j]).1 == i by {
        let k = choose|k: int| 0 <= k < list.len() && list[k] == i;
        assert(pairs.contains(pairs[k]));
        assert(near.to_multiset().count(pairs[k]) > 0);
        assert(near.contains(pairs[k]));
        let j = choose|j: int| 0 <= j < near.len() && near[j] == pairs[k];
        assert(near[j].1 == i);
    }
    assert(pairs.no_duplicates()) by {
        assert forall|j: int, k: int| 0 <= j < k < pairs.len() implies pairs[j] != pairs[k] by {
            assert(list[j] < list[k]);
        }
    }
    pairs.lemma_multiset_has_no_duplicates();
    near.lemma_multiset_has_no_duplicates_conv();
    assert forall|j: int, k: int| 0 <= j < k < near.len() implies (#[trigger] near[j]).0
        < (#[trigger] near[k]).0 || near[j].0 == near[k].0 && near[j].1 < near[k].1 by {
        assert(crate::sorting::pair_le(near[j], near[k]));
        assert(near[j] != near[k]);
    }
}

proof fn lemma_all_near(cells: Cells, v: usize, down: bool, k: int)
    requires
        0 <= k <= cells.links@.len(),
    ensures
        ({
            let list = near_links(cells, v, down, k);
            &&& forall|j: int| 0 <= j < list.len() ==> #[trigger] list[j] < k
            &&& forall|i: int, j: int|
                0 <= i < j < list.len() ==> #[trigger] list[i] < #[trigger] list[j]
            &&& forall|i: int|
                #![trigger cells.links@[i]]
                0 <= i < k && other_end(cells, i, !down) == v ==> exists|j: int|
                    0 <= j < list.len() && #[trigger] list[j] == i
        }),
    decreases k,
{
    if k > 0 {
        let total: usize = cells.links.len();
        lemma_all_near(cells, v, down, k - 1);
        let before = near_links(cells, v, down, k - 1);
        let list = near_links(cells, v, down, k);
        assert forall|i: int| #![trigger cells.links@[i]] 0 <= i < k && other_end(
            cells,
            i,
            !down,
        ) == v implies exists|j: int| 0 <= j < list.len() && #[trigger] list[j] == i by {
            if i < k - 1 {
                let j = choose|j: int| 0 <= j < before.len() && #[trigger] before[j] == i;
                assert(list[j] == i);
            } else {
                assert(list[before.len() as int] == i);
            }
        }
        assert forall|j: int| 0 <= j < list.len() implies #[trigger] list[j] < k by {
            if j < before.len() {
                assert(list[j] == before[j]);
            }
        }
        assert forall|i: int, j: int| 0 <= i < j < list.len() implies #[trigger] list[i]
            < #[trigger] list[j] by {
            assert(list[i] == before[i]);
            if j < before.len() {
                assert(list[j] == before[j]);
            }
        }
    }
}

/// A cell further ahead in the row of `v` was aligned at place `p` or beyond.
pub open spec fn is_in_the_way(cells: Cells, down: bool, mirror: bool, over: Seq<Option<usize>>, v: int, p: int, a: int) -> bool {
    &&& 0 <= a < cells.pos@.len()
    &&& cells.rank@[a] == cells.rank@[v]
    &&& place(cells, mirror, a as usize) < place(cells, mirror, v as usize)
    &&& over[a] is Some
    &&& place(cells, mirror, upper(cells, down, over, a) as usize) >= p
}

/// Nothing keeps `v` from an alignment over link `i` at place `p`: the link crosses no
/// segment, and no cell further ahead in the row was aligned at that place or beyond.
pub open spec fn is_open(cells: Cells, marked: Seq<bool>, down: bool, mirror: bool, over: Seq<Option<usize>>, v: int, p: int, i: int) -> bool {
    &&& !marked[i]
    &&& forall|a: int| !(#[trigger] is_in_the_way(cells, down, mirror, over, v, p, a))
}

/// The cell is aligned over the first of its one or two median links that is open, and over
/// none if neither is.
pub open spec fn is_fair(cells: Cells, marked: Seq<bool>, down: bool, mirror: bool, over: Seq<Option<usize>>, v: int) -> bool {
    let near = sorted_near(cells, v as usize, down, mirror);
    let d = near.len() as int;
    let (first, second) = (near[(d - 1) / 2], near[d / 2]);
    over[v] == if d == 0 {
        None::<usize>
    } else if is_open(cells, marked, down, mirror, over, v, first.0 as int, first.1 as int) {
        Some(first.1)
    } else if is_open(cells, marked, down, mirror, over, v, second.0 as int, second.1 as int) {
        Some(second.1)
    } else {
        None
    }
}

/// The bound is the place of a cell that was aligned with.
spec fn is_tight(cells: Cells, down: bool, mirror: bool, b: Blocks, t: int) -> bool {
    b.bound == -1 || exists|a: int|
        #![trigger b.via[a]]
        0 <= a < cells.pos@.len() && depth(cells, down, a) == t && b.via[a] is Some && place(
            cells,
            mirror,
            upper(cells, down, b.via, a) as usize,
        ) == b.bound
}

spec fn is_fair_so_far(cells: Cells, marked: Seq<bool>, down: bool, mirror: bool, b: Blocks, t: int, k: int) -> bool {
    &&& is_tight(cells, down, mirror, b, t)
    &&& forall|c: int|
        0 <= c < cells.pos@.len() && #[trigger] is_done(cells, down, mirror, t, k, c) ==> is_fair(
            cells,
            marked,
            down,
            mirror,
            b.via,
            c,
        )
}

/// What the bound says of the cells ahead.
proof fn lemma_bound(cells: Cells, marked: Seq<bool>, down: bool, mirror: bool, b: Blocks, t: int, k: int, v: int, p: int, i: int)
    requires
        is_plan(cells, marked),
        0 <= v < cells.pos@.len(),
        depth(cells, down, v) == t,
        place(cells, mirror, v as usize) == k,
        is_stacked(cells, down, mirror, b, t, k),
        is_tight(cells, down, mirror, b, t),
        p >= 0,
    ensures
        is_open(cells, marked, down, mirror, b.via, v, p, i) == (!marked[i] && b.bound < p),
{
    let n = cells.pos@.len() as int;
    assert(cells.rank@[v] < cells.layers@.len());
    if b.bound < p {
        assert forall|a: int| !(#[trigger] is_in_the_way(cells, down, mirror, b.via, v, p, a)) by {
            if is_in_the_way(cells, down, mirror, b.via, v, p, a) {
                assert(cells.rank@[a] < cells.layers@.len());
                assert(is_bounded(cells, down, mirror, b, t, a));
            }
        }
    } else {
        let a = choose|a: int|
            #![trigger b.via[a]]
            0 <= a < n && depth(cells, down, a) == t && b.via[a] is Some && place(
                cells,
                mirror,
                upper(cells, down, b.via, a) as usize,
            ) == b.bound;
        assert(cells.rank@[a] < cells.layers@.len());
        assert(is_done(cells, down, mirror, t, k, a));
        assert(is_in_the_way(cells, down, mirror, b.via, v, p, a));
    }
}

/// Cells further on in a row do not matter for those ahead.
proof fn lemma_fair_stays(cells: Cells, marked: Seq<bool>, down: bool, mirror: bool, over: Seq<Option<usize>>, later: Seq<Option<usize>>, c: int, v: int)
    requires
        0 <= c < cells.pos@.len(),
        0 <= v < cells.pos@.len(),
        over.len() == cells.pos@.len(),
        c != v,
        cells.rank@[c] != cells.rank@[v] || place(cells, mirror, c as usize) <= place(
            cells,
            mirror,
            v as usize,
        ),
        later == over || exists|i: usize| later == over.update(v, Some(i)),
        is_fair(cells, marked, down, mirror, over, c),
    ensures
        is_fair(cells, marked, down, mirror, later, c),
{
    assert(later.len() == over.len());
    assert(later[c] == over[c]);
    assert forall|p: int, i: int| #[trigger] is_open(
        cells,
        marked,
        down,
        mirror,
        over,
        c,
        p,
        i,
    ) == is_open(cells, marked, down, mirror, later, c, p, i) by {
        assert forall|a: int| #[trigger]
            is_in_the_way(cells, down, mirror, over, c, p, a) == is_in_the_way(
            cells,
            down,
            mirror,
            later,
            c,
            p,
            a,
        ) by {
            if 0 <= a < cells.pos@.len() && a != v {
                assert(later[a] == over[a]);
            }
        }
        if is_open(cells, marked, down, mirror, over, c, p, i) {
            assert forall|a: int| !(#[trigger] is_in_the_way(
                cells,
                down,
                mirror,
                later,
                c,
                p,
                a,
            )) by {
                assert(!is_in_the_way(cells, down, mirror, over, c, p, a));
            }
        }
    }
    let near = sorted_near(cells, c as usize, down, mirror);
    let d = near.len() as int;
    let (first, second) = (near[(d - 1) / 2], near[d / 2]);
    assert(is_open(cells, marked, down, mirror, over, c, first.0 as int, first.1 as int) == is_open(
        cells,
        marked,
        down,
        mirror,
        later,
        c,
        first.0 as int,
        first.1 as int,
    ));
    assert(is_open(cells, marked, down, mirror, over, c, second.0 as int, second.1 as int)
        == is_open(cells, marked, down, mirror, later, c, second.0 as int, second.1 as int));
}

/// The place of one cell alone changes nothing for the others ahead of it.
proof fn lemma_open_stays(cells: Cells, marked: Seq<bool>, down: bool, mirror: bool, over: Seq<Option<usize>>, x: Option<usize>, v: int, p: int, i: int)
    requires
        0 <= v < cells.pos@.len(),
        over.len() == cells.pos@.len(),
    ensures
        is_open(cells, marked, down, mirror, over, v, p, i) == is_open(
            cells,
            marked,
            down,
            mirror,
            over.update(v, x),
            v,
            p,
            i,
        ),
{
    let later = over.update(v, x);
    assert forall|a: int| is_in_the_way(cells, down, mirror, over, v, p, a) == #[trigger]
        is_in_the_way(cells, down, mirror, later, v, p, a) by {
        if 0 <= a < cells.pos@.len() && a != v {
            assert(later[a] == over[a]);
        }
    }
    if is_open(cells, marked, down, mirror, later, v, p, i) {
        assert forall|a: int| !(#[trigger] is_in_the_way(cells, down, mirror, over, v, p, a)) by {
            assert(!is_in_the_way(cells, down, mirror, later, v, p, a));
        }
    }
}

proof fn lemma_fair_row(cells: Cells, marked: Seq<bool>, down: bool, mirror: bool, b: Blocks, t: int, k: int)
    requires
        is_plan(cells, marked),
        0 <= t < cells.layers@.len(),
        0 <= k <= cells.layers@[row_at(cells, down, t)]@.len(),
        is_stacked(cells, down, mirror, Blocks { bound: -1, ..b }, t, 0),
        is_fair_so_far(cells, marked, down, mirror, Blocks { bound: -1, ..b }, t, 0),
    ensures
        is_fair_so_far(
            cells,
            marked,
            down,
            mirror,
            b.align_row(cells, marked, down, mirror, row_at(cells, down, t), k),
            t,
            k,
        ),
    decreases k,
{
    if k > 0 {
        let r = row_at(cells, down, t);
        let n = cells.pos@.len() as int;
        lemma_fair_row(cells, marked, down, mirror, b, t, k - 1);
        lemma_row(cells, marked, down, mirror, b, t, k - 1);
        lemma_cell_at(cells, down, mirror, t, k - 1);
        let before = b.align_row(cells, marked, down, mirror, r, k - 1);
        let after = b.align_row(cells, marked, down, mirror, r, k);
        let v = cell_at(cells, mirror, r, k - 1);
        let w = v as int;
        let near = sorted_near(cells, v, down, mirror);
        let d = near.len() as int;
        assert(before.via[w] is None) by {
            assert(!is_done(cells, down, mirror, t, k - 1, w));
        }
        if d > 0 {
            let (lo, hi) = ((d - 1) / 2, d / 2);
            let (first, second) = (near[lo], near[hi]);
            lemma_more_done(cells, down, mirror, before, t, k - 1);
            lemma_try(cells, marked, down, mirror, before, t, k - 1, v, lo);
            let between = before.try_align(cells, marked, down, mirror, v, lo);
            lemma_try(cells, marked, down, mirror, between, t, k - 1, v, hi);
            lemma_bound(cells, marked, down, mirror, before, t, k - 1, w, first.0 as int, first.1 as int);
            lemma_bound(cells, marked, down, mirror, before, t, k - 1, w, second.0 as int, second.1 as int);
            lemma_near_is_own(cells, v, down, mirror, lo);
            lemma_near_is_own(cells, v, down, mirror, hi);
            let x = after.via[w];
            assert(after.via =~= before.via.update(w, x));
            lemma_open_stays(cells, marked, down, mirror, before.via, x, w, first.0 as int, first.1 as int);
            lemma_open_stays(cells, marked, down, mirror, before.via, x, w, second.0 as int, second.1 as int);
            assert(is_fair(cells, marked, down, mirror, after.via, w));
            if x is None {
                assert(after.via =~= before.via);
                assert(after == before);
            } else {
                assert(place(cells, mirror, upper(cells, down, after.via, w) as usize)
                    == after.bound);
                assert(after.via[w] is Some);
                assert(is_tight(cells, down, mirror, after, t));
            }
        }
        assert forall|c: int| 0 <= c < n && #[trigger] is_done(
            cells,
            down,
            mirror,
            t,
            k,
            c,
        ) implies is_fair(cells, marked, down, mirror, after.via, c) by {
            if c != w {
                assert(cells.rank@[c] < cells.layers@.len());
                assert(cells.rank@[w] < cells.layers@.len());
                let total: usize = cells.pos.len();
                assert(c as usize == c);
                if depth(cells, down, c) == t {
                    lemma_same_place(cells, down, mirror, c, w);
                }
                assert(is_done(cells, down, mirror, t, k - 1, c));
                if d > 0 {
                    if after.via[w] is Some {
                        assert(after.via == before.via.update(w, Some(after.via[w]->Some_0)));
                    }
                    lemma_fair_stays(cells, marked, down, mirror, before.via, after.via, c, w);
                }
            }
        }
    }
}

/// Cells of one row at the same place are the same.
proof fn lemma_same_place(cells: Cells, down: bool, mirror: bool, a: int, c: int)
    requires
        is_cell_grid(cells),
        0 <= a < cells.pos@.len(),
        0 <= c < cells.pos@.len(),
        depth(cells, down, a) == depth(cells, down, c),
    ensures
        place(cells, mirror, a as usize) == place(cells, mirror, c as usize) ==> a == c,
{
    assert(cells.rank@[a] < cells.layers@.len());
    assert(cells.rank@[c] < cells.layers@.len());
    let total: usize = cells.pos.len();
    assert(a == a as usize as int && c == c as usize as int);
    assert(cells.rank@[a] == cells.rank@[c]);
    let width: usize = cells.layers@[cells.rank@[a] as int].len();
    assert(cells.pos@[a] < width && cells.pos@[c] < width);
}

proof fn lemma_fair(cells: Cells, marked: Seq<bool>, down: bool, mirror: bool, t: int)
    requires
        is_plan(cells, marked),
        0 <= t <= cells.layers@.len(),
    ensures
        is_fair_so_far(
            cells,
            marked,
            down,
            mirror,
            Blocks { bound: -1, ..aligned(cells, marked, down, mirror, t) },
            t,
            0,
        ),
    decreases t,
{
    let n = cells.pos@.len() as int;
    let b = aligned(cells, marked, down, mirror, t);
    let bare = Blocks { bound: -1, ..b };
    assert forall|c: int| 0 <= c < n && #[trigger] is_done(
        cells,
        down,
        mirror,
        t,
        0,
        c,
    ) implies is_fair(cells, marked, down, mirror, bare.via, c) by {
        assert(cells.rank@[c] < cells.layers@.len());
        if t > 0 {
            let r = row_at(cells, down, t - 1);
            let width = cells.layers@[r]@.len() as int;
            lemma_aligned(cells, marked, down, mirror, t - 1);
            lemma_fair(cells, marked, down, mirror, t - 1);
            let before = aligned(cells, marked, down, mirror, t - 1);
            lemma_fair_row(cells, marked, down, mirror, before, t - 1, width);
            assert(b == before.align_row(cells, marked, down, mirror, r, width));
            let total: usize = cells.pos.len();
            assert(c as usize == c);
            let length: usize = cells.layers@[cells.rank@[c] as int].len();
            assert(is_done(cells, down, mirror, t - 1, width, c));
        }
    }
}

/// Each cell is aligned over the first of its one or two median links that is open, and over
/// none if neither is.
pub proof fn law_cells_are_aligned_with_a_median(cells: Cells, marked: Seq<bool>, down: bool, mirror: bool, v: int)
    requires
        is_cell_grid(cells),
        links_step_down(cells),
        marked.len() == cells.links@.len(),
        0 <= v < cells.pos@.len(),
    ensures
        is_fair(cells, marked, down, mirror, blocks_of(cells, marked, down, mirror).via, v),
{
    let height = cells.layers@.len() as int;
    lemma_fair(cells, marked, down, mirror, height);
    assert(cells.rank@[v] < cells.layers@.len());
    assert(is_done(cells, down, mirror, height, 0, v));
}

// Conflicts.

/// The cell `v` is joined by an inner link with the dummy at place `k` of the row above.
pub open spec fn has_inner(cells: Cells, v: int, k: int) -> bool {
    exists|i: int|
        0 <= i < cells.links@.len() && #[trigger] is_inner_link(cells, v, i)
            && cells.pos@[cells.links@[i].parent as int] == k
}

/// A link from place `k` to the place of `w` crosses the inner link of a cell `v` of the same
/// row, or ends right of it in `w` itself.
pub open spec fn is_crossed(cells: Cells, w: int, k: int, v: int, inner: int) -> bool {
    &&& 0 <= v < cells.pos@.len()
    &&& cells.rank@[v] == cells.rank@[w]
    &&& has_inner(cells, v, inner)
    &&& if cells.pos@[v] < cells.pos@[w] {
        k < inner
    } else {
        k > inner
    }
}

proof fn lemma_inner_from(cells: Cells, v: int, i: int)
    requires
        0 <= i <= cells.links@.len(),
    ensures
        match inner_from(cells, v, i) {
            Some(k) => has_inner(cells, v, k as int),
            None => forall|j: int|
                i <= j < cells.links@.len() ==> !(#[trigger] is_inner_link(cells, v, j)),
        },
    decreases cells.links@.len() - i,
{
    if i < cells.links@.len() && !is_inner_link(cells, v, i) {
        lemma_inner_from(cells, v, i + 1);
    }
}

/// What bounds the places left and right of a cell are inner links of its row.
proof fn lemma_left_bound(cells: Cells, r: int, l: int)
    requires
        is_cell_grid(cells),
        0 <= r < cells.layers@.len(),
        0 <= l <= cells.layers@[r]@.len(),
    ensures
        left_bound(cells, r, l) == 0 || exists|j: int|
            0 <= j < l && has_inner(
                cells,
                (#[trigger] cells.layers@[r]@[j]) as int,
                left_bound(cells, r, l) as int,
            ),
        forall|j: int, k: int|
            0 <= j < l && are_inner_links_ordered(cells, r) && #[trigger] has_inner(
                cells,
                cells.layers@[r]@[j] as int,
                k,
            ) ==> k <= left_bound(cells, r, l),
    decreases l,
{
    if l > 0 {
        let v = cells.layers@[r]@[l - 1] as int;
        lemma_left_bound(cells, r, l - 1);
        lemma_inner_from(cells, v, 0);
        assert forall|j: int, k: int|
            0 <= j < l && are_inner_links_ordered(cells, r) && #[trigger] has_inner(
                cells,
                cells.layers@[r]@[j] as int,
                k,
            ) implies k <= left_bound(cells, r, l) by {
            if inner_from(cells, v, 0) is Some {
                let b = inner_from(cells, v, 0)->Some_0;
                assert(has_inner(cells, cells.layers@[r]@[l - 1] as int, b as int));
                assert(is_inner_pair_ordered(cells, r, j, k, l - 1, b as int));
            } else if j == l - 1 {
                let i = choose|i: int|
                    0 <= i < cells.links@.len() && #[trigger] is_inner_link(cells, v, i)
                        && cells.pos@[cells.links@[i].parent as int] == k;
                assert(false);
            }
        }
    }
}

proof fn lemma_right_bound(cells: Cells, r: int, l: int)
    requires
        is_cell_grid(cells),
        1 <= r < cells.layers@.len(),
        0 <= l <= cells.layers@[r]@.len(),
    ensures
        right_bound(cells, r, l) + 1 >= cells.layers@[r - 1]@.len() || exists|j: int|
            l <= j < cells.layers@[r]@.len() && has_inner(
                cells,
                (#[trigger] cells.layers@[r]@[j]) as int,
                right_bound(cells, r, l) as int,
            ),
        forall|j: int, k: int|
            l <= j < cells.layers@[r]@.len() && are_inner_links_ordered(cells, r)
                && #[trigger] has_inner(cells, cells.layers@[r]@[j] as int, k) ==> right_bound(
                cells,
                r,
                l,
            ) <= k,
    decreases cells.layers@[r]@.len() - l,
{
    let above: usize = cells.layers@[r - 1].len();
    if l < cells.layers@[r]@.len() {
        let v = cells.layers@[r]@[l] as int;
        lemma_right_bound(cells, r, l + 1);
        lemma_inner_from(cells, v, 0);
        assert forall|j: int, k: int|
            l <= j < cells.layers@[r]@.len() && are_inner_links_ordered(cells, r)
                && #[trigger] has_inner(cells, cells.layers@[r]@[j] as int, k) implies right_bound(
            cells,
            r,
            l,
        ) <= k by {
            if inner_from(cells, v, 0) is Some {
                let b = inner_from(cells, v, 0)->Some_0;
                assert(has_inner(cells, cells.layers@[r]@[l] as int, b as int));
                assert(is_inner_pair_ordered(cells, r, l, b as int, j, k));
            } else if j == l {
                let i = choose|i: int|
                    0 <= i < cells.links@.len() && #[trigger] is_inner_link(cells, v, i)
                        && cells.pos@[cells.links@[i].parent as int] == k;
                assert(false);
            }
        }
    }
}

/// The inner links at two places of a row, the first of them further left, start in the same
/// order.
pub open spec fn is_inner_pair_ordered(cells: Cells, r: int, a: int, j: int, c: int, k: int) -> bool {
    0 <= a <= c < cells.layers@[r]@.len() && has_inner(cells, cells.layers@[r]@[a] as int, j)
        && has_inner(cells, cells.layers@[r]@[c] as int, k) ==> j <= k
}

/// The inner links into a row cross none of each other, and a cell has one at most.
pub open spec fn are_inner_links_ordered(cells: Cells, r: int) -> bool {
    forall|a: int, j: int, c: int, k: int| #[trigger] is_inner_pair_ordered(cells, r, a, j, c, k)
}

/// A link that is marked crosses an inner link, or ends right of it in the same cell.
pub proof fn law_marked_links_cross_a_segment(cells: Cells, i: int) -> (found: (int, int))
    requires
        is_cell_grid(cells),
        links_step_down(cells),
        0 <= i < cells.links@.len(),
        is_conflict(cells, i),
    ensures
        is_crossed(
            cells,
            cells.links@[i].child as int,
            cells.pos@[cells.links@[i].parent as int] as int,
            found.0,
            found.1,
        ),
{
    let w = cells.links@[i].child as int;
    let p = cells.links@[i].parent as int;
    let k = cells.pos@[p] as int;
    assert(cells.rank@[w] < cells.layers@.len());
    assert(cells.rank@[p] < cells.layers@.len());
    let r = cells.rank@[w] as int;
    let l = cells.pos@[w] as int;
    lemma_left_bound(cells, r, l);
    lemma_right_bound(cells, r, l);
    if k < left_bound(cells, r, l) {
        let j = choose|j: int|
            0 <= j < l && has_inner(
                cells,
                (#[trigger] cells.layers@[r]@[j]) as int,
                left_bound(cells, r, l) as int,
            );
        (cells.layers@[r]@[j] as int, left_bound(cells, r, l) as int)
    } else {
        let j = choose|j: int|
            l <= j < cells.layers@[r]@.len() && has_inner(
                cells,
                (#[trigger] cells.layers@[r]@[j]) as int,
                right_bound(cells, r, l) as int,
            );
        (cells.layers@[r]@[j] as int, right_bound(cells, r, l) as int)
    }
}

/// A link that crosses an inner link, or ends right of it in the same cell, is marked.
pub proof fn law_links_across_segments_are_marked(cells: Cells, i: int, v: int, inner: int)
    requires
        is_cell_grid(cells),
        links_step_down(cells),
        0 <= i < cells.links@.len(),
        are_inner_links_ordered(cells, cells.rank@[cells.links@[i].child as int] as int),
        is_crossed(
            cells,
            cells.links@[i].child as int,
            cells.pos@[cells.links@[i].parent as int] as int,
            v,
            inner,
        ),
    ensures
        is_conflict(cells, i),
{
    let w = cells.links@[i].child as int;
    let p = cells.links@[i].parent as int;
    assert(cells.rank@[w] < cells.layers@.len());
    assert(cells.rank@[p] < cells.layers@.len());
    assert(cells.rank@[v] < cells.layers@.len());
    let r = cells.rank@[w] as int;
    let l = cells.pos@[w] as int;
    lemma_left_bound(cells, r, l);
    lemma_right_bound(cells, r, l);
    assert(cells.layers@[r]@[cells.pos@[v] as int] == v);
    assert(has_inner(cells, cells.layers@[r]@[cells.pos@[v] as int] as int, inner));
}

} // verus!
