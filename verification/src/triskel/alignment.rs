//! Which cells are stacked in one column.
//!
//! Cells are aligned with a median neighbour in the row before, as long as alignments do
//! not cross each other and do not cross the straight run of a segment.
use crate::sorting::{sort_pairs, sorted_pairs};
use crate::triskel::cells::{are_within, Cells};
use vstd::prelude::*;

verus! {

/// Each cell stands at its place in its row.
pub open spec fn is_cell_grid(cells: Cells) -> bool {
    let n = cells.pos@.len();
    &&& cells.rank@.len() == n
    &&& cells.is_dummy@.len() == n
    &&& forall|c: int|
        0 <= c < n ==> (#[trigger] cells.rank@[c]) < cells.layers@.len() && cells.pos@[c]
            < cells.layers@[cells.rank@[c] as int]@.len()
            && cells.layers@[cells.rank@[c] as int]@[cells.pos@[c] as int] == c
    &&& forall|r: int, i: int|
        0 <= r < cells.layers@.len() && 0 <= i < cells.layers@[r]@.len() ==> {
            let c = #[trigger] cells.layers@[r]@[i];
            &&& c < n
            &&& cells.rank@[c as int] == r
            &&& cells.pos@[c as int] == i
        }
    &&& are_within(cells.links@, n as int)
}

// Conflicts.

/// Link `i` joins the dummy `v` with a dummy in the row above.
pub open spec fn is_inner_link(cells: Cells, v: int, i: int) -> bool {
    let p = cells.links@[i].parent as int;
    &&& cells.links@[i].child == v
    &&& cells.is_dummy@[v]
    &&& cells.is_dummy@[p]
    &&& cells.rank@[p] + 1 == cells.rank@[v]
}

/// The position of the dummy above a dummy, by the first such link from `i` on.
pub open spec fn inner_from(cells: Cells, v: int, i: int) -> Option<usize>
    decreases cells.links@.len() - i,
{
    if i >= cells.links@.len() {
        None
    } else if is_inner_link(cells, v, i) {
        Some(cells.pos@[cells.links@[i].parent as int])
    } else {
        inner_from(cells, v, i + 1)
    }
}

/// The position of the last inner link left of place `l` of row `r`.
pub open spec fn left_bound(cells: Cells, r: int, l: int) -> usize
    decreases l,
{
    if l <= 0 {
        0
    } else {
        match inner_from(cells, cells.layers@[r]@[l - 1] as int, 0) {
            Some(k) => k,
            None => left_bound(cells, r, l - 1),
        }
    }
}

/// The position of the first inner link at place `l` of row `r` or right of it, or the end
/// of the row above.
pub open spec fn right_bound(cells: Cells, r: int, l: int) -> usize
    decreases cells.layers@[r]@.len() - l,
{
    if l >= cells.layers@[r]@.len() {
        if cells.layers@[r - 1]@.len() == 0 {
            0
        } else {
            (cells.layers@[r - 1]@.len() - 1) as usize
        }
    } else {
        match inner_from(cells, cells.layers@[r]@[l] as int, 0) {
            Some(k) => k,
            None => right_bound(cells, r, l + 1),
        }
    }
}

/// Link `i` crosses an inner link.
pub open spec fn is_conflict(cells: Cells, i: int) -> bool {
    let w = cells.links@[i].child as int;
    let r = cells.rank@[w] as int;
    let k = cells.pos@[cells.links@[i].parent as int];
    r > 0 && (k < left_bound(cells, r, cells.pos@[w] as int) || k > right_bound(
        cells,
        r,
        cells.pos@[w] as int,
    ))
}

/// The inner link of each cell.
fn inner_links(cells: &Cells) -> (inner: Vec<Option<usize>>)
    requires
        is_cell_grid(*cells),
    ensures
        inner@.len() == cells.pos@.len(),
        forall|v: int|
            0 <= v < inner@.len() ==> #[trigger] inner@[v] == inner_from(*cells, v, 0),
{
    let n: usize = cells.pos.len();
    let mut inner: Vec<Option<usize>> = Vec::new();
    for v in 0..n
        invariant
            inner@.len() == v,
            forall|w: int| 0 <= w < v ==> #[trigger] inner@[w] is None,
    {
        inner.push(None);
    }
    let mut i: usize = cells.links.len();
    while i > 0
        invariant
            is_cell_grid(*cells),
            n == cells.pos@.len(),
            i <= cells.links@.len(),
            inner@.len() == n,
            forall|v: int|
                0 <= v < n ==> #[trigger] inner@[v] == inner_from(*cells, v, i as int),
        decreases i,
    {
        i = i - 1;
        let link = cells.links[i];
        let (p, v): (usize, usize) = (link.parent, link.child);
        let ghost before = inner@;
        assert(cells.links@[i as int].parent < n && cells.links@[i as int].child < n);
        assert(cells.rank@[p as int] < cells.layers@.len());
        assert(cells.rank@[v as int] < cells.layers@.len());
        if cells.is_dummy[v] && cells.is_dummy[p] && cells.rank[v] > 0 && cells.rank[p]
            == cells.rank[v] - 1 {
            inner[v] = Some(cells.pos[p]);
        }
        proof {
            assert forall|w: int| 0 <= w < n implies #[trigger] inner@[w] == inner_from(
                *cells,
                w,
                i as int,
            ) by {
                assert(before[w] == inner_from(*cells, w, i + 1));
            }
        }
    }
    inner
}

/// Marks the links that cross an inner link of a segment.
#[verifier::rlimit(40)]
pub fn mark_type1(cells: &Cells) -> (marked: Vec<bool>)
    requires
        is_cell_grid(*cells),
    ensures
        marked@.len() == cells.links@.len(),
        forall|i: int|
            0 <= i < marked@.len() ==> #[trigger] marked@[i] == is_conflict(*cells, i),
{
    let n: usize = cells.pos.len();
    let inner = inner_links(cells);
    let mut left: Vec<usize> = Vec::new();
    let mut right: Vec<usize> = Vec::new();
    for v in 0..n
        invariant
            left@.len() == v,
            right@.len() == v,
    {
        left.push(0);
        right.push(0);
    }
    let mut r: usize = 1;
    while r < cells.layers.len()
        invariant
            r >= 1,
            is_cell_grid(*cells),
            n == cells.pos@.len(),
            inner@.len() == n,
            forall|v: int| 0 <= v < n ==> #[trigger] inner@[v] == inner_from(*cells, v, 0),
            left@.len() == n,
            right@.len() == n,
            forall|q: int, l: int|
                1 <= q < r && 0 <= l < cells.layers@[q]@.len() ==> {
                    let c = #[trigger] cells.layers@[q]@[l];
                    left@[c as int] == left_bound(*cells, q, l) && right@[c as int] == right_bound(
                        *cells,
                        q,
                        l,
                    )
                },
            cells.layers@.len() > 0 ==> r <= cells.layers@.len(),
        decreases cells.layers@.len() - r,
    {
        let row = &cells.layers[r];
        let ghost left0 = left@;
        let ghost right0 = right@;
        let mut k0: usize = 0;
        for l in 0..row.len()
            invariant
                is_cell_grid(*cells),
                n == cells.pos@.len(),
                inner@.len() == n,
                forall|v: int| 0 <= v < n ==> #[trigger] inner@[v] == inner_from(*cells, v, 0),
                1 <= r < cells.layers@.len(),
                row@ == cells.layers@[r as int]@,
                left@.len() == n,
                k0 == left_bound(*cells, r as int, l as int),
                forall|j: int|
                    0 <= j < l ==> left@[#[trigger] cells.layers@[r as int]@[j] as int]
                        == left_bound(*cells, r as int, j),
                forall|c: int| 0 <= c < n && cells.rank@[c] != r ==> #[trigger] left@[c] == left0[c],
        {
            let c: usize = row[l];
            assert(cells.layers@[r as int]@[l as int] == c);
            let ghost now = left@;
            left[c] = k0;
            proof {
                assert forall|j: int| 0 <= j < l + 1 implies left@[#[trigger] cells.layers@[r as int]@[j] as int]
                    == left_bound(*cells, r as int, j) by {
                    let d = cells.layers@[r as int]@[j];
                    assert(cells.pos@[d as int] == j && cells.pos@[c as int] == l);
                    if j < l {
                        assert(d != c);
                        assert(now[d as int] == left_bound(*cells, r as int, j));
                    }
                }
                assert(inner@[c as int] == inner_from(*cells, c as int, 0));
            }
            if let Some(k) = inner[c] {
                k0 = k;
            }
        }
        let upper: usize = cells.layers[r - 1].len();
        let mut k1: usize = if upper == 0 {
            0
        } else {
            upper - 1
        };
        let mut l: usize = row.len();
        while l > 0
            invariant
                is_cell_grid(*cells),
                n == cells.pos@.len(),
                inner@.len() == n,
                forall|v: int| 0 <= v < n ==> #[trigger] inner@[v] == inner_from(*cells, v, 0),
                1 <= r < cells.layers@.len(),
                row@ == cells.layers@[r as int]@,
                l <= row@.len(),
                right@.len() == n,
                k1 == right_bound(*cells, r as int, l as int),
                forall|j: int|
                    l <= j < row@.len() ==> right@[#[trigger] cells.layers@[r as int]@[j] as int]
                        == right_bound(*cells, r as int, j),
                forall|c: int|
                    0 <= c < n && cells.rank@[c] != r ==> #[trigger] right@[c] == right0[c],
            decreases l,
        {
            l = l - 1;
            let c: usize = row[l];
            assert(cells.layers@[r as int]@[l as int] == c);
            assert(inner@[c as int] == inner_from(*cells, c as int, 0));
            if let Some(k) = inner[c] {
                k1 = k;
            }
            let ghost now = right@;
            right[c] = k1;
            proof {
                assert forall|j: int| l <= j < row@.len() implies right@[#[trigger] cells.layers@[r as int]@[j] as int]
                    == right_bound(*cells, r as int, j) by {
                    let d = cells.layers@[r as int]@[j];
                    assert(cells.pos@[d as int] == j && cells.pos@[c as int] == l);
                    if j > l {
                        assert(d != c);
                        assert(now[d as int] == right_bound(*cells, r as int, j));
                    }
                }
            }
        }
        proof {
            assert forall|q: int, l: int|
                1 <= q < r + 1 && 0 <= l < cells.layers@[q]@.len() implies {
                let c = #[trigger] cells.layers@[q]@[l];
                left@[c as int] == left_bound(*cells, q, l) && right@[c as int] == right_bound(
                    *cells,
                    q,
                    l,
                )
            } by {
                let c = cells.layers@[q]@[l];
                assert(cells.rank@[c as int] == q);
                if q < r {
                    assert(left@[c as int] == left0[c as int]);
                    assert(right@[c as int] == right0[c as int]);
                }
            }
        }
        r = r + 1;
    }
    let mut marked: Vec<bool> = Vec::new();
    for i in 0..cells.links.len()
        invariant
            is_cell_grid(*cells),
            n == cells.pos@.len(),
            left@.len() == n,
            right@.len() == n,
            forall|q: int, l: int|
                1 <= q < cells.layers@.len() && 0 <= l < cells.layers@[q]@.len() ==> {
                    let c = #[trigger] cells.layers@[q]@[l];
                    left@[c as int] == left_bound(*cells, q, l) && right@[c as int] == right_bound(
                        *cells,
                        q,
                        l,
                    )
                },
            marked@.len() == i,
            forall|k: int| 0 <= k < i ==> #[trigger] marked@[k] == is_conflict(*cells, k),
    {
        let link = cells.links[i];
        let (p, w): (usize, usize) = (link.parent, link.child);
        proof {
            assert(cells.links@[i as int].parent < n && cells.links@[i as int].child < n);
            assert(cells.rank@[w as int] < cells.layers@.len());
            assert(cells.layers@[cells.rank@[w as int] as int]@[cells.pos@[w as int] as int] == w);
        }
        let k: usize = cells.pos[p];
        marked.push(cells.rank[w] > 0 && (k < left[w] || k > right[w]));
    }
    marked
}

// Groups.

/// Cells of one chain have one group; the other cells have their own.
pub fn chain_groups(n: usize, chains: &Vec<Vec<usize>>) -> (groups: Vec<usize>)
    requires
        forall|i: int, j: int|
            0 <= i < chains@.len() && 0 <= j < chains@[i]@.len() ==> #[trigger] chains@[i]@[j] < n,
        forall|i: int, j: int, a: int, b: int|
            0 <= i < chains@.len() && 0 <= a < chains@.len() && 0 <= j < chains@[i]@.len() && 0 <= b
                < chains@[a]@.len() && #[trigger] chains@[i]@[j] == #[trigger] chains@[a]@[b] ==> i
                == a,
    ensures
        groups@.len() == n,
        forall|i: int, j: int|
            0 <= i < chains@.len() && 0 <= j < chains@[i]@.len()
                ==> groups@[#[trigger] chains@[i]@[j] as int] == chains@[i]@[0],
        forall|c: int|
            0 <= c < n && !in_chains(chains@, chains@.len() as int, c) ==> #[trigger] groups@[c] == c,
{
    let mut groups: Vec<usize> = Vec::new();
    for c in 0..n
        invariant
            groups@.len() == c,
            forall|d: int| 0 <= d < c ==> #[trigger] groups@[d] == d,
    {
        groups.push(c);
    }
    for i in 0..chains.len()
        invariant
            groups@.len() == n,
            forall|i: int, j: int|
                0 <= i < chains@.len() && 0 <= j < chains@[i]@.len() ==> #[trigger] chains@[i]@[j]
                    < n,
            forall|i: int, j: int, a: int, b: int|
                0 <= i < chains@.len() && 0 <= a < chains@.len() && 0 <= j < chains@[i]@.len() && 0
                    <= b < chains@[a]@.len() && #[trigger] chains@[i]@[j]
                    == #[trigger] chains@[a]@[b] ==> i == a,
            forall|k: int, j: int|
                0 <= k < i && 0 <= j < chains@[k]@.len()
                    ==> groups@[#[trigger] chains@[k]@[j] as int] == chains@[k]@[0],
            forall|c: int|
                0 <= c < n && !in_chains(chains@, i as int, c) ==> #[trigger] groups@[c] == c,
    {
        let chain = &chains[i];
        let ghost before = groups@;
        for j in 0..chain.len()
            invariant
                groups@.len() == n,
                i < chains@.len(),
                chain@ == chains@[i as int]@,
                forall|i: int, j: int|
                    0 <= i < chains@.len() && 0 <= j < chains@[i]@.len()
                        ==> #[trigger] chains@[i]@[j] < n,
                forall|b: int|
                    0 <= b < j ==> groups@[#[trigger] chains@[i as int]@[b] as int]
                        == chains@[i as int]@[0],
                forall|c: int|
                    0 <= c < n && !chain@.contains(c as usize) ==> #[trigger] groups@[c]
                        == before[c],
        {
            assert(chains@[i as int]@[j as int] < n);
            let c: usize = chain[j];
            assert(chain@.contains(c));
            groups[c] = chain[0];
        }
        proof {
            assert forall|k: int, j: int|
                0 <= k < i + 1 && 0 <= j < chains@[k]@.len() implies groups@[#[trigger] chains@[k]@[j] as int]
                == chains@[k]@[0] by {
                let c = chains@[k]@[j];
                assert(c < n);
                if k < i {
                    assert(before[c as int] == chains@[k]@[0]);
                    if chain@.contains(c) {
                        let b = chain@.index_of(c);
                        assert(chains@[i as int]@[b] == c);
                    }
                }
            }
            assert forall|c: int|
                0 <= c < n && !in_chains(chains@, i + 1, c) implies #[trigger] groups@[c] == c by {
                if in_chains(chains@, i as int, c) {
                    let k = choose|k: int|
                        0 <= k < i && (#[trigger] chains@[k])@.contains(c as usize);
                    assert(chains@[k]@.contains(c as usize));
                }
                if chain@.contains(c as usize) {
                    assert(chains@[i as int]@.contains(c as usize));
                }
            }
        }
    }
    groups
}

/// The cell stands in one of the first `i` chains.
pub open spec fn in_chains(chains: Seq<Vec<usize>>, i: int, c: int) -> bool {
    exists|k: int| 0 <= k < i && (#[trigger] chains[k])@.contains(c as usize)
}

// Blocks.

/// The cell at the other end of a link: above when going down, below when going up.
pub open spec fn other_end(cells: Cells, i: int, down: bool) -> usize {
    if down {
        cells.links@[i].parent
    } else {
        cells.links@[i].child
    }
}

/// The first `k` links that lead to `v` when going down, or from it when going up.
pub open spec fn near_links(cells: Cells, v: usize, down: bool, k: int) -> Seq<usize>
    decreases k,
{
    if k <= 0 {
        Seq::empty()
    } else {
        let before = near_links(cells, v, down, k - 1);
        if other_end(cells, k - 1, !down) == v {
            before.push((k - 1) as usize)
        } else {
            before
        }
    }
}

/// The place of a cell in its row, counted from the left, or from the right in a mirror.
pub open spec fn place(cells: Cells, mirror: bool, c: usize) -> usize {
    if mirror {
        (cells.layers@[cells.rank@[c as int] as int]@.len() - 1 - cells.pos@[c as int]) as usize
    } else {
        cells.pos@[c as int]
    }
}

/// The links of a cell, each with the place of its other end, by these places.
pub open spec fn sorted_near(cells: Cells, v: usize, down: bool, mirror: bool) -> Seq<
    (usize, usize),
> {
    let list = near_links(cells, v, down, cells.links@.len() as int);
    sorted_pairs(
        Seq::new(
            list.len(),
            |k: int| (place(cells, mirror, other_end(cells, list[k] as int, down)), list[k]),
        ),
    )
}

/// Cells stacked in blocks: the first cell of the block of each, the next cell of the
/// block, the last one leading back to the first, and the link over which a cell was
/// aligned. `bound` is the place of the last cell aligned with.
pub struct Blocks {
    pub root: Seq<usize>,
    pub align: Seq<usize>,
    pub via: Seq<Option<usize>>,
    pub bound: int,
}

impl Blocks {
    /// Aligns `v` over its m-th link, if it is not aligned yet, the link crosses no
    /// segment, and the other end is right of the last cell aligned with.
    pub open spec fn try_align(
        self,
        cells: Cells,
        marked: Seq<bool>,
        down: bool,
        mirror: bool,
        v: usize,
        m: int,
    ) -> Blocks {
        let (k, i) = sorted_near(cells, v, down, mirror)[m];
        let u = other_end(cells, i as int, down);
        if self.align[v as int] == v && !marked[i as int] && self.bound < k {
            Blocks {
                root: self.root.update(v as int, self.root[u as int]),
                align: self.align.update(u as int, v).update(v as int, self.root[u as int]),
                via: self.via.update(v as int, Some(i)),
                bound: k as int,
            }
        } else {
            self
        }
    }

    /// Aligns `v` with one of its median neighbours.
    pub open spec fn align_cell(
        self,
        cells: Cells,
        marked: Seq<bool>,
        down: bool,
        mirror: bool,
        v: usize,
    ) -> Blocks {
        let d = sorted_near(cells, v, down, mirror).len() as int;
        if d == 0 {
            self
        } else {
            self.try_align(cells, marked, down, mirror, v, (d - 1) / 2).try_align(
                cells,
                marked,
                down,
                mirror,
                v,
                d / 2,
            )
        }
    }

    /// Aligns the first `k` cells of row `r`, from the left or from the right.
    pub open spec fn align_row(
        self,
        cells: Cells,
        marked: Seq<bool>,
        down: bool,
        mirror: bool,
        r: int,
        k: int,
    ) -> Blocks
        decreases k,
    {
        if k <= 0 {
            Blocks { bound: -1, ..self }
        } else {
            self.align_row(cells, marked, down, mirror, r, k - 1).align_cell(
                cells,
                marked,
                down,
                mirror,
                cell_at(cells, mirror, r, k - 1),
            )
        }
    }
}

/// The k-th cell of a row, from the left or from the right.
pub open spec fn cell_at(cells: Cells, mirror: bool, r: int, k: int) -> usize {
    let row = cells.layers@[r]@;
    if mirror {
        row[row.len() - 1 - k]
    } else {
        row[k]
    }
}

/// Every cell a block of its own.
pub open spec fn single_blocks(n: nat) -> Blocks {
    Blocks {
        root: Seq::new(n, |c: int| c as usize),
        align: Seq::new(n, |c: int| c as usize),
        via: Seq::new(n, |c: int| None),
        bound: -1,
    }
}

/// The k-th row, from the top or from the bottom.
pub open spec fn row_at(cells: Cells, down: bool, k: int) -> int {
    if down {
        k
    } else {
        cells.layers@.len() - 1 - k
    }
}

/// The blocks after the first `k` rows, from the top or from the bottom.
pub open spec fn aligned(cells: Cells, marked: Seq<bool>, down: bool, mirror: bool, k: int) -> Blocks
    decreases k,
{
    if k <= 0 {
        single_blocks(cells.pos@.len())
    } else {
        let r = row_at(cells, down, k - 1);
        aligned(cells, marked, down, mirror, k - 1).align_row(
            cells,
            marked,
            down,
            mirror,
            r,
            cells.layers@[r]@.len() as int,
        )
    }
}

/// The links to or from each cell.
fn list_links(cells: &Cells, down: bool) -> (lists: Vec<Vec<usize>>)
    requires
        is_cell_grid(*cells),
    ensures
        lists@.len() == cells.pos@.len(),
        forall|v: int|
            0 <= v < lists@.len() ==> (#[trigger] lists@[v])@ == near_links(
                *cells,
                v as usize,
                down,
                cells.links@.len() as int,
            ),
{
    let n: usize = cells.pos.len();
    let mut lists: Vec<Vec<usize>> = Vec::new();
    for v in 0..n
        invariant
            lists@.len() == v,
            forall|w: int|
                0 <= w < v ==> (#[trigger] lists@[w])@ == near_links(*cells, w as usize, down, 0),
    {
        lists.push(Vec::new());
        assert(lists@[v as int]@ =~= near_links(*cells, v, down, 0));
    }
    for k in 0..cells.links.len()
        invariant
            is_cell_grid(*cells),
            n == cells.pos@.len(),
            lists@.len() == n,
            forall|w: int|
                0 <= w < n ==> (#[trigger] lists@[w])@ == near_links(
                    *cells,
                    w as usize,
                    down,
                    k as int,
                ),
    {
        let link = cells.links[k];
        let v: usize = if down {
            link.child
        } else {
            link.parent
        };
        assert(cells.links@[k as int].parent < n && cells.links@[k as int].child < n);
        let ghost before = lists@;
        lists[v].push(k);
        proof {
            assert forall|w: int| 0 <= w < n implies (#[trigger] lists@[w])@ == near_links(
                *cells,
                w as usize,
                down,
                k + 1,
            ) by {
                assert(before[w]@ == near_links(*cells, w as usize, down, k as int));
            }
        }
    }
    lists
}

proof fn lemma_near_links(cells: Cells, v: usize, down: bool, k: int)
    requires
        0 <= k <= cells.links@.len(),
    ensures
        forall|j: int|
            0 <= j < near_links(cells, v, down, k).len() ==> #[trigger] near_links(
                cells,
                v,
                down,
                k,
            )[j] < k,
    decreases k,
{
    if k > 0 {
        lemma_near_links(cells, v, down, k - 1);
        let before = near_links(cells, v, down, k - 1);
        let all = near_links(cells, v, down, k);
        assert forall|j: int| 0 <= j < all.len() implies #[trigger] all[j] < k by {
            if j < before.len() {
                assert(all[j] == before[j]);
            }
        }
    }
}

fn place_of(cells: &Cells, mirror: bool, c: usize) -> (p: usize)
    requires
        is_cell_grid(*cells),
        c < cells.pos@.len(),
    ensures
        p == place(*cells, mirror, c),
{
    assert(cells.rank@[c as int] < cells.layers@.len());
    if mirror {
        cells.layers[cells.rank[c]].len() - 1 - cells.pos[c]
    } else {
        cells.pos[c]
    }
}

/// Sorts the links of a cell.
fn sort_near(cells: &Cells, list: &Vec<usize>, v: usize, down: bool, mirror: bool) -> (near: Vec<
    (usize, usize),
>)
    requires
        is_cell_grid(*cells),
        list@ == near_links(*cells, v, down, cells.links@.len() as int),
    ensures
        near@ == sorted_near(*cells, v, down, mirror),
        forall|j: int| 0 <= j < near@.len() ==> (#[trigger] near@[j]).1 < cells.links@.len(),
{
    let ghost goal = Seq::new(
        list@.len(),
        |k: int| (place(*cells, mirror, other_end(*cells, list@[k] as int, down)), list@[k]),
    );
    let mut pairs: Vec<(usize, usize)> = Vec::new();
    for k in 0..list.len()
        invariant
            is_cell_grid(*cells),
            list@ == near_links(*cells, v, down, cells.links@.len() as int),
            goal == Seq::new(
                list@.len(),
                |k: int|
                    (place(*cells, mirror, other_end(*cells, list@[k] as int, down)), list@[k]),
            ),
            pairs@ == goal.take(k as int),
    {
        proof {
            lemma_near_links(*cells, v, down, cells.links@.len() as int);
            assert(list@[k as int] < cells.links@.len());
            assert(cells.links@[list@[k as int] as int].parent < cells.pos@.len());
        }
        let link = cells.links[list[k]];
        let u: usize = if down {
            link.parent
        } else {
            link.child
        };
        pairs.push((place_of(cells, mirror, u), list[k]));
        assert(pairs@ =~= goal.take(k + 1));
    }
    assert(pairs@ =~= goal);
    let near = sort_pairs(&pairs);
    proof {
        crate::sorting::lemma_pairs_are_sorted(pairs@);
        lemma_near_links(*cells, v, down, cells.links@.len() as int);
        assert forall|j: int| 0 <= j < near@.len() implies (#[trigger] near@[j]).1
            < cells.links@.len() by {
            broadcast use vstd::seq_lib::group_to_multiset_ensures;

            assert(near@.contains(near@[j]));
            assert(near@.to_multiset().count(near@[j]) > 0);
            assert(pairs@.contains(near@[j]));
            let k = choose|k: int| 0 <= k < pairs@.len() && pairs@[k] == near@[j];
            assert(list@[k] < cells.links@.len());
        }
    }
    near
}

/// Cells stacked in blocks.
pub struct Alignment {
    pub root: Vec<usize>,
    pub align: Vec<usize>,
    pub via: Vec<Option<usize>>,
}

impl Alignment {
    pub open spec fn holds(&self, b: Blocks) -> bool {
        &&& self.root@ == b.root
        &&& self.align@ == b.align
        &&& self.via@ == b.via
    }

    pub open spec fn is_sized(&self, n: nat) -> bool {
        &&& self.root@.len() == n
        &&& self.align@.len() == n
        &&& self.via@.len() == n
    }

    fn try_align(
        &mut self,
        cells: &Cells,
        marked: &Vec<bool>,
        near: &Vec<(usize, usize)>,
        down: bool,
        v: usize,
        m: usize,
        bound: Option<usize>,
        Ghost(mirror): Ghost<bool>,
        Ghost(b): Ghost<Blocks>,
    ) -> (after: Option<usize>)
        requires
            is_cell_grid(*cells),
            marked@.len() == cells.links@.len(),
            near@ == sorted_near(*cells, v, down, mirror),
            forall|j: int| 0 <= j < near@.len() ==> (#[trigger] near@[j]).1 < cells.links@.len(),
            m < near@.len(),
            v < cells.pos@.len(),
            old(self).is_sized(cells.pos@.len()),
            old(self).holds(b),
            b.bound == bound_of(bound),
        ensures
            ({
                let next = b.try_align(*cells, marked@, down, mirror, v, m as int);
                final(self).holds(next) && next.bound == bound_of(after)
            }),
            final(self).is_sized(cells.pos@.len()),
    {
        let (k, i) = near[m];
        proof {
            assert(near@[m as int].1 < cells.links@.len());
            assert(cells.links@[i as int].parent < cells.pos@.len());
        }
        let link = cells.links[i];
        let u: usize = if down {
            link.parent
        } else {
            link.child
        };
        let free = match bound {
            Some(last) => last < k,
            None => true,
        };
        if self.align[v] == v && !marked[i] && free {
            let first: usize = self.root[u];
            self.align[u] = v;
            self.root[v] = first;
            self.align[v] = first;
            self.via[v] = Some(i);
            Some(k)
        } else {
            bound
        }
    }
}

/// The place of the last cell aligned with; left of all places at first.
pub open spec fn bound_of(bound: Option<usize>) -> int {
    match bound {
        Some(k) => k as int,
        None => -1,
    }
}

/// Stacks cells in blocks, row by row from the top (or from the bottom), and in each row
/// from the left (or, in a mirror, from the right).
#[verifier::rlimit(40)]
pub fn vertical_align(cells: &Cells, marked: &Vec<bool>, down: bool, mirror: bool) -> (res: Alignment)
    requires
        is_cell_grid(*cells),
        marked@.len() == cells.links@.len(),
    ensures
        res.holds(aligned(*cells, marked@, down, mirror, cells.layers@.len() as int)),
        res.is_sized(cells.pos@.len()),
{
    let n: usize = cells.pos.len();
    let mut res = Alignment { root: Vec::new(), align: Vec::new(), via: Vec::new() };
    for c in 0..n
        invariant
            res.root@ == single_blocks(c as nat).root,
            res.align@ == single_blocks(c as nat).align,
            res.via@ == single_blocks(c as nat).via,
    {
        res.root.push(c);
        res.align.push(c);
        res.via.push(None);
        assert(res.root@ =~= single_blocks((c + 1) as nat).root);
        assert(res.align@ =~= single_blocks((c + 1) as nat).align);
        assert(res.via@ =~= single_blocks((c + 1) as nat).via);
    }
    let lists = list_links(cells, down);
    let height: usize = cells.layers.len();
    for t in 0..height
        invariant
            is_cell_grid(*cells),
            n == cells.pos@.len(),
            height == cells.layers@.len(),
            marked@.len() == cells.links@.len(),
            lists@.len() == n,
            forall|v: int|
                0 <= v < n ==> (#[trigger] lists@[v])@ == near_links(
                    *cells,
                    v as usize,
                    down,
                    cells.links@.len() as int,
                ),
            res.holds(aligned(*cells, marked@, down, mirror, t as int)),
            res.is_sized(n as nat),
    {
        let r: usize = if down {
            t
        } else {
            height - 1 - t
        };
        let ghost start = aligned(*cells, marked@, down, mirror, t as int);
        let row = &cells.layers[r];
        let width: usize = row.len();
        let mut bound: Option<usize> = None;
        for k in 0..width
            invariant
                is_cell_grid(*cells),
                n == cells.pos@.len(),
                r < cells.layers@.len(),
                row@ == cells.layers@[r as int]@,
                width == row@.len(),
                marked@.len() == cells.links@.len(),
                lists@.len() == n,
                forall|v: int|
                    0 <= v < n ==> (#[trigger] lists@[v])@ == near_links(
                        *cells,
                        v as usize,
                        down,
                        cells.links@.len() as int,
                    ),
                res.holds(start.align_row(*cells, marked@, down, mirror, r as int, k as int)),
                start.align_row(*cells, marked@, down, mirror, r as int, k as int).bound
                    == bound_of(bound),
                res.is_sized(n as nat),
        {
            let at: usize = if mirror {
                width - 1 - k
            } else {
                k
            };
            let v: usize = row[at];
            let ghost b = start.align_row(*cells, marked@, down, mirror, r as int, k as int);
            proof {
                assert(cells.layers@[r as int]@[at as int] == v);
                assert(v < n);
                assert(lists@[v as int]@ == near_links(
                    *cells,
                    v,
                    down,
                    cells.links@.len() as int,
                ));
                assert(cell_at(*cells, mirror, r as int, k as int) == v);
            }
            let near = sort_near(cells, &lists[v], v, down, mirror);
            let d: usize = near.len();
            if d > 0 {
                let ghost b1 = b.try_align(*cells, marked@, down, mirror, v, (d - 1) / 2);
                bound = res.try_align(
                    cells,
                    marked,
                    &near,
                    down,
                    v,
                    (d - 1) / 2,
                    bound,
                    Ghost(mirror),
                    Ghost(b),
                );
                bound = res.try_align(
                    cells,
                    marked,
                    &near,
                    down,
                    v,
                    d / 2,
                    bound,
                    Ghost(mirror),
                    Ghost(b1),
                );
            }
            assert(start.align_row(*cells, marked@, down, mirror, r as int, k + 1)
                == b.align_cell(*cells, marked@, down, mirror, v));
        }
        assert(row_at(*cells, down, t as int) == r);
    }
    res
}

/// An alignment goes over a link of the cell that crosses no segment.
pub open spec fn is_sound_step(cells: Cells, marked: Seq<bool>, down: bool, via: Seq<Option<usize>>, v: int) -> bool {
    via[v] matches Some(i) ==> i < cells.links@.len() && !marked[i as int] && other_end(
        cells,
        i as int,
        !down,
    ) == v
}

/// Cells are aligned over their own links, and never over one that crosses a segment.
pub proof fn law_alignments_respect_segments(
    cells: Cells,
    marked: Seq<bool>,
    down: bool,
    mirror: bool,
    k: int,
    v: int,
)
    requires
        is_cell_grid(cells),
        marked.len() == cells.links@.len(),
        0 <= k <= cells.layers@.len(),
        0 <= v < cells.pos@.len(),
    ensures
        is_sound_step(cells, marked, down, aligned(cells, marked, down, mirror, k).via, v),
        aligned(cells, marked, down, mirror, k).via.len() == cells.pos@.len(),
    decreases k,
{
    if k > 0 {
        law_alignments_respect_segments(cells, marked, down, mirror, k - 1, v);
        let r = row_at(cells, down, k - 1);
        lemma_row_respects(
            cells,
            marked,
            down,
            mirror,
            aligned(cells, marked, down, mirror, k - 1),
            r,
            cells.layers@[r]@.len() as int,
            v,
        );
    }
}

proof fn lemma_row_respects(
    cells: Cells,
    marked: Seq<bool>,
    down: bool,
    mirror: bool,
    b: Blocks,
    r: int,
    k: int,
    v: int,
)
    requires
        is_cell_grid(cells),
        marked.len() == cells.links@.len(),
        0 <= r < cells.layers@.len(),
        0 <= k <= cells.layers@[r]@.len(),
        0 <= v < cells.pos@.len(),
        b.via.len() == cells.pos@.len(),
        is_sound_step(cells, marked, down, b.via, v),
    ensures
        is_sound_step(
            cells,
            marked,
            down,
            b.align_row(cells, marked, down, mirror, r, k).via,
            v,
        ),
        b.align_row(cells, marked, down, mirror, r, k).via.len() == cells.pos@.len(),
    decreases k,
{
    if k > 0 {
        lemma_row_respects(cells, marked, down, mirror, b, r, k - 1, v);
        let before = b.align_row(cells, marked, down, mirror, r, k - 1);
        let w = cell_at(cells, mirror, r, k - 1);
        let at = if mirror {
            cells.layers@[r]@.len() - k
        } else {
            k - 1
        };
        assert(cells.layers@[r]@[at] == w);
        let near = sorted_near(cells, w, down, mirror);
        let d = near.len() as int;
        if d > 0 {
            lemma_near_is_own(cells, w, down, mirror, (d - 1) / 2);
            lemma_near_is_own(cells, w, down, mirror, d / 2);
        }
    }
}

/// The sorted links of a cell are its links, each with the place of its other end.
pub proof fn lemma_near_is_own(cells: Cells, v: usize, down: bool, mirror: bool, j: int)
    requires
        0 <= j < sorted_near(cells, v, down, mirror).len(),
    ensures
        sorted_near(cells, v, down, mirror)[j].1 < cells.links@.len(),
        other_end(cells, sorted_near(cells, v, down, mirror)[j].1 as int, !down) == v,
        sorted_near(cells, v, down, mirror)[j].0 == place(
            cells,
            mirror,
            other_end(cells, sorted_near(cells, v, down, mirror)[j].1 as int, down),
        ),
{
    broadcast use vstd::seq_lib::group_to_multiset_ensures;

    let list = near_links(cells, v, down, cells.links@.len() as int);
    let pairs = Seq::new(
        list.len(),
        |k: int| (place(cells, mirror, other_end(cells, list[k] as int, down)), list[k]),
    );
    let near = sorted_near(cells, v, down, mirror);
    crate::sorting::lemma_pairs_are_sorted(pairs);
    assert(near.contains(near[j]));
    assert(near.to_multiset().count(near[j]) > 0);
    assert(pairs.contains(near[j]));
    let k = choose|k: int| 0 <= k < pairs.len() && pairs[k] == near[j];
    lemma_near_links_own(cells, v, down, cells.links@.len() as int, k);
}

proof fn lemma_near_links_own(cells: Cells, v: usize, down: bool, k: int, j: int)
    requires
        0 <= k <= cells.links@.len(),
        0 <= j < near_links(cells, v, down, k).len(),
    ensures
        near_links(cells, v, down, k)[j] < k,
        other_end(cells, near_links(cells, v, down, k)[j] as int, !down) == v,
    decreases k,
{
    if k > 0 {
        let total: usize = cells.links.len();
        assert(total == cells.links@.len());
        let before = near_links(cells, v, down, k - 1);
        if j < before.len() {
            lemma_near_links_own(cells, v, down, k - 1, j);
        }
    }
}

} // verus!
