//! The deepest node of a path of a tree whose value does not exceed a limit.
use crate::triskel::hammock_tags::{lemma_above_on_path, lemma_head_is_above, lemma_path_places};
use crate::triskel::tree_index::{
    lemma_above_depth, lemma_above_ordered, lemma_above_transitive, lemma_parent_above,
    lemma_root_above, power_of_two, TreeIndex,
};
use vstd::prelude::*;

verus! {

/// The entry `i` is no more than the two entries below it in the heap.
pub(crate) open spec fn is_low(values: Seq<usize>, i: int) -> bool {
    values[i] <= values[2 * i] && values[i] <= values[2 * i + 1]
}

/// The minima of ranges of a list, in a binary heap over `n` places.
pub(crate) struct MinTree {
    pub n: usize,
    pub values: Vec<usize>,
}

impl MinTree {
    /// The value at the place `p`.
    pub(crate) open spec fn leaf(&self, p: int) -> usize {
        self.values@[self.n + p]
    }

    pub(crate) open spec fn wf(&self) -> bool {
        &&& self.values@.len() == 2 * self.n
        &&& exists|k: nat| self.n == #[trigger] power_of_two(k)
        &&& forall|i: int| 1 <= i < self.n ==> #[trigger] is_low(self.values@, i)
    }

    pub(crate) fn new(values: &Vec<usize>) -> (tree: Self)
        requires
            values@.len() < usize::MAX / 8,
        ensures
            tree.wf(),
            values@.len() <= tree.n <= 2 * values@.len() + 1,
            forall|p: int| 0 <= p < values@.len() ==> #[trigger] tree.leaf(p) == values@[p],
    {
        let mut n: usize = 1;
        let ghost mut k: nat = 0;
        while n < values.len()
            invariant
                n == power_of_two(k),
                values@.len() < usize::MAX / 8,
                n <= 2 * values@.len() + 1,
                n >= 1,
            decreases 2 * values@.len() + 1 - n,
        {
            n = n * 2;
            proof {
                k = k + 1;
            }
        }
        let mut data: Vec<usize> = Vec::new();
        for i in 0..n * 2
            invariant
                values@.len() < usize::MAX / 8,
                n <= 2 * values@.len() + 1,
                values@.len() <= n,
                data@.len() == i,
                forall|q: int|
                    0 <= q < i ==> #[trigger] data@[q] == if n <= q < n + values@.len() {
                        values@[q - n]
                    } else {
                        usize::MAX
                    },
        {
            if n <= i && i - n < values.len() {
                data.push(values[i - n]);
            } else {
                data.push(usize::MAX);
            }
        }
        let mut i: usize = n;
        while i > 1
            invariant
                1 <= i <= n,
                n <= 2 * values@.len() + 1,
                values@.len() < usize::MAX / 8,
                values@.len() <= n,
                data@.len() == 2 * n,
                forall|q: int| n <= q < n + values@.len() ==> #[trigger] data@[q] == values@[q - n],
                forall|q: int| i <= q < n ==> #[trigger] is_low(data@, q),
            decreases i,
        {
            i = i - 1;
            let (a, b) = (data[i * 2], data[i * 2 + 1]);
            let ghost before = data@;
            data.set(
                i,
                if a < b {
                    a
                } else {
                    b
                },
            );
            proof {
                assert forall|q: int| i <= q < n implies #[trigger] is_low(data@, q) by {
                    if q > i {
                        assert(is_low(before, q));
                    }
                }
            }
        }
        let tree = MinTree { n, values: data };
        assert(n == power_of_two(k));
        tree
    }

    /// A node of the heap bounds the values of its places from below.
    proof fn lemma_bound(&self, node: int, lo: int, hi: int, k: nat, q: int)
        requires
            self.wf(),
            node >= 1,
            hi - lo == power_of_two(k),
            node * (hi - lo) == self.n + lo,
            0 <= lo,
            hi <= self.n,
            lo <= q < hi,
        ensures
            self.values@[node] <= self.leaf(q),
            hi - lo > 1 ==> node < self.n,
            node < 2 * self.n,
        decreases hi - lo,
    {
        let size = hi - lo;
        assert(size >= 1) by {
            lemma_power_positive(k);
        }
        if size == 1 {
            assert(node == self.n + lo) by (nonlinear_arith)
                requires
                    node * size == self.n + lo,
                    size == 1,
            ;
        } else {
            lemma_half(node, lo, hi, k, self.n as int);
            assert(is_low(self.values@, node));
            let mid = (lo + hi) / 2;
            if q < mid {
                self.lemma_bound(2 * node, lo, mid, (k - 1) as nat, q);
            } else {
                self.lemma_bound(2 * node + 1, mid, hi, (k - 1) as nat, q);
            }
        }
    }

    fn find(
        &self,
        node: usize,
        lo: usize,
        hi: usize,
        Ghost(k): Ghost<nat>,
        ql: usize,
        qr: usize,
        limit: usize,
    ) -> (found: Option<usize>)
        requires
            self.wf(),
            4 * self.n <= usize::MAX,
            node >= 1,
            lo < hi <= self.n,
            hi - lo == power_of_two(k),
            node * (hi - lo) == self.n + lo,
        ensures
            match found {
                Some(p) => {
                    &&& lo <= p < hi
                    &&& ql <= p < qr
                    &&& self.leaf(p as int) <= limit
                    &&& forall|q: int|
                        p < q < hi && ql <= q < qr ==> #[trigger] self.leaf(q) > limit
                },
                None => forall|q: int|
                    lo <= q < hi && ql <= q < qr ==> #[trigger] self.leaf(q) > limit,
            },
        decreases hi - lo,
    {
        proof {
            self.lemma_bound(node as int, lo as int, hi as int, k, lo as int);
        }
        if ql >= hi || qr <= lo {
            return None;
        }
        if self.values[node] > limit {
            proof {
                assert forall|q: int| lo <= q < hi && ql <= q < qr implies #[trigger] self.leaf(q)
                    > limit by {
                    self.lemma_bound(node as int, lo as int, hi as int, k, q);
                }
            }
            return None;
        }
        if hi - lo == 1 {
            assert(node == self.n + lo) by (nonlinear_arith)
                requires
                    node * (hi - lo) == self.n + lo,
                    hi - lo == 1,
            ;
            return Some(lo);
        }
        let mid: usize = (lo + hi) / 2;
        proof {
            lemma_half(node as int, lo as int, hi as int, k, self.n as int);
        }
        match self.find(node * 2 + 1, mid, hi, Ghost((k - 1) as nat), ql, qr, limit) {
            Some(p) => Some(p),
            None => self.find(node * 2, lo, mid, Ghost((k - 1) as nat), ql, qr, limit),
        }
    }

    /// The last of the places from `ql` to `qr` whose value is at most `limit`.
    pub(crate) fn rightmost_at_most(&self, ql: usize, qr: usize, limit: usize) -> (found: Option<usize>)
        requires
            self.wf(),
            4 * self.n <= usize::MAX,
            qr <= self.n,
        ensures
            match found {
                Some(p) => {
                    &&& ql <= p < qr
                    &&& self.leaf(p as int) <= limit
                    &&& forall|q: int| p < q < qr ==> #[trigger] self.leaf(q) > limit
                },
                None => forall|q: int| ql <= q < qr ==> #[trigger] self.leaf(q) > limit,
            },
    {
        let ghost k = choose|k: nat| self.n == #[trigger] power_of_two(k);
        proof {
            lemma_power_positive(k);
        }
        self.find(1, 0, self.n, Ghost(k), ql, qr, limit)
    }
}

proof fn lemma_power_positive(k: nat)
    ensures
        power_of_two(k) >= 1,
    decreases k,
{
    if k > 0 {
        lemma_power_positive((k - 1) as nat);
    }
}

/// The two halves of a range of places are those of the two nodes below its node.
proof fn lemma_half(node: int, lo: int, hi: int, k: nat, n: int)
    requires
        hi - lo == power_of_two(k),
        hi - lo > 1,
        node >= 1,
        node * (hi - lo) == n + lo,
        hi <= n,
        0 <= lo,
    ensures
        k >= 1,
        (lo + hi) / 2 - lo == power_of_two((k - 1) as nat),
        hi - (lo + hi) / 2 == power_of_two((k - 1) as nat),
        (2 * node) * ((lo + hi) / 2 - lo) == n + lo,
        (2 * node + 1) * (hi - (lo + hi) / 2) == n + (lo + hi) / 2,
        node < n,
{
    assert(k >= 1) by {
        if k == 0 {
            assert(power_of_two(0) == 1);
        }
    }
    let half = power_of_two((k - 1) as nat) as int;
    lemma_power_positive((k - 1) as nat);
    assert(hi - lo == 2 * half);
    let mid = (lo + hi) / 2;
    assert(mid == lo + half);
    assert((2 * node) * half == n + lo) by (nonlinear_arith)
        requires
            node * (hi - lo) == n + lo,
            hi - lo == 2 * half,
    ;
    assert((2 * node + 1) * half == n + lo + half) by (nonlinear_arith)
        requires
            (2 * node) * half == n + lo,
    ;
    assert(node < n) by (nonlinear_arith)
        requires
            node * (hi - lo) == n + lo,
            hi - lo >= 2,
            lo < n,
            node >= 1,
    ;
}

/// A node on the way from `entry` down to `limit`, below `entry`, whose value is at most
/// the depth of `entry`.
pub open spec fn is_good(tree: TreeIndex, lower: Seq<usize>, entry: int, limit: int, x: int) -> bool {
    &&& 0 <= x < tree.count()
    &&& x != entry
    &&& tree.above(entry, x)
    &&& tree.above(x, limit)
    &&& lower[x] <= tree.depth@[entry]
}

/// The deepest such node.
pub open spec fn is_deepest_good(
    tree: TreeIndex,
    lower: Seq<usize>,
    entry: int,
    limit: int,
    x: int,
) -> bool {
    &&& is_good(tree, lower, entry, limit, x)
    &&& forall|y: int| #[trigger] is_good(tree, lower, entry, limit, y) ==> tree.above(y, x)
}

/// Finds the deepest good node between `entry` and `limit`.
#[verifier::rlimit(40)]
pub(crate) fn deepest_good(
    tree: &TreeIndex,
    Ghost(root): Ghost<int>,
    Ghost(lower): Ghost<Seq<usize>>,
    min_tree: &MinTree,
    entry: usize,
    limit: usize,
) -> (found: Option<usize>)
    requires
        tree.wf(root),
        min_tree.wf(),
        4 * min_tree.n <= usize::MAX,
        tree.count() <= min_tree.n,
        lower.len() == tree.count(),
        forall|p: int| 0 <= p < tree.count() ==> #[trigger] min_tree.leaf(p) == lower[tree.at_pos@[p] as int],
        entry < tree.count(),
        limit < tree.count(),
        tree.above(entry as int, limit as int),
    ensures
        match found {
            Some(x) => is_deepest_good(*tree, lower, entry as int, limit as int, x as int),
            None => forall|y: int| !#[trigger] is_good(*tree, lower, entry as int, limit as int, y),
        },
{
    let ghost (parent, depth) = (tree.parent@, tree.depth@);
    let ghost (e, bottom) = (entry as int, limit as int);
    let mut x: usize = limit;
    assert(tree.above(bottom, bottom));
    while tree.head[x] != tree.head[entry]
        invariant
            tree.wf(root),
            parent == tree.parent@,
            depth == tree.depth@,
            e == entry,
            bottom == limit,
            min_tree.wf(),
            4 * min_tree.n <= usize::MAX,
            tree.count() <= min_tree.n,
            lower.len() == tree.count(),
            forall|p: int|
                0 <= p < tree.count() ==> #[trigger] min_tree.leaf(p) == lower[tree.at_pos@[p] as int],
            entry < tree.count(),
            limit < tree.count(),
            x < tree.count(),
            tree.above(e, x as int),
            tree.above(x as int, bottom),
            forall|y: int| #[trigger]
                is_good(*tree, lower, e, bottom, y) ==> tree.above(y, x as int),
        decreases depth[x as int],
    {
        let h: usize = tree.head[x];
        proof {
            lemma_head_is_above(*tree, root, x as int);
            lemma_above_on_path(*tree, root, e, x as int);
            assert(tree.tin@[x as int] < tree.tout@[x as int]);
        }
        match min_tree.rightmost_at_most(tree.tin[h], tree.tin[x] + 1, tree.depth[entry]) {
            Some(p) => {
                let found: usize = tree.at_pos[p];
                proof {
                    let y = found as int;
                    lemma_path_places(*tree, root, x as int, p as int);
                    assert(tree.at_pos@[p as int] < tree.count());
                    assert(min_tree.leaf(p as int) == lower[y]);
                    lemma_above_transitive(parent, depth, e, h as int, y);
                    lemma_above_transitive(parent, depth, y, x as int, bottom);
                    assert(y != e);
                    lemma_place_is_deepest(*tree, root, lower, min_tree, e, bottom, x as int, p as int, tree.tin@[h as int] as int);
                }
                return Some(found);
            },
            None => {},
        }
        proof {
            assert(tree.above(e, h as int));
            assert(h != e);
            if h == root {
                lemma_root_above(parent, root, depth, e);
                lemma_above_depth(parent, root, depth, e, root);
                lemma_above_depth(parent, root, depth, root, e);
            }
            let up = parent[h as int] as int;
            lemma_parent_above(parent, root, depth, e, h as int);
            lemma_above_transitive(parent, depth, up, h as int, x as int);
            lemma_above_transitive(parent, depth, up, x as int, bottom);
            lemma_above_depth(parent, root, depth, h as int, x as int);
            assert(depth[h as int] == depth[up] + 1);
            assert forall|y: int| #[trigger] is_good(*tree, lower, e, bottom, y) implies tree.above(y, up) by {
                lemma_above_on_path(*tree, root, y, x as int);
                let p = tree.tin@[y] as int;
                assert(tree.at_pos@[p] == y);
                if tree.tin@[h as int] <= p {
                    assert(min_tree.leaf(p) == lower[y]);
                    assert(false);
                }
                lemma_parent_above(parent, root, depth, y, h as int);
            }
        }
        x = tree.parent[h];
    }
    if tree.tin[entry] < tree.tin[x] {
        proof {
            lemma_head_is_above(*tree, root, x as int);
            lemma_head_is_above(*tree, root, e);
            assert(tree.tin@[x as int] < tree.tout@[x as int]);
            assert(tree.tin@[e] < tree.tout@[e]);
        }
        match min_tree.rightmost_at_most(tree.tin[entry] + 1, tree.tin[x] + 1, tree.depth[entry]) {
            Some(p) => {
                let found: usize = tree.at_pos[p];
                proof {
                    let y = found as int;
                    lemma_path_places(*tree, root, x as int, p as int);
                    assert(tree.at_pos@[p as int] < tree.count());
                    assert(min_tree.leaf(p as int) == lower[y]);
                    lemma_above_transitive(parent, depth, y, x as int, bottom);
                    assert(tree.tin@[y] == p);
                    if depth[y] < depth[e] {
                        lemma_above_ordered(parent, root, depth, y, e, x as int);
                        assert(tree.above(y, e));
                    } else {
                        lemma_above_ordered(parent, root, depth, e, y, x as int);
                    }
                    lemma_place_is_deepest(*tree, root, lower, min_tree, e, bottom, x as int, p as int, tree.tin@[e] + 1);
                }
                return Some(found);
            },
            None => {},
        }
        proof {
            assert forall|y: int| !#[trigger] is_good(*tree, lower, e, bottom, y) by {
                if is_good(*tree, lower, e, bottom, y) {
                    lemma_above_on_path(*tree, root, y, x as int);
                    let p = tree.tin@[y] as int;
                    assert(tree.at_pos@[p] == y);
                    assert(tree.above(e, y));
                    assert(tree.at_pos@[tree.tin@[e] as int] == e);
                    assert(min_tree.leaf(p) == lower[y]);
                }
            }
        }
    } else {
        proof {
            assert(tree.tin@[e] < tree.tout@[e]);
            assert(tree.tin@[e] == tree.tin@[x as int]);
            assert(tree.at_pos@[tree.tin@[e] as int] == e);
            assert(tree.at_pos@[tree.tin@[x as int] as int] == x);
            assert forall|y: int| !#[trigger] is_good(*tree, lower, e, bottom, y) by {
                if is_good(*tree, lower, e, bottom, y) {
                    lemma_above_depth(parent, root, depth, y, e);
                    lemma_above_depth(parent, root, depth, e, y);
                }
            }
        }
    }
    None
}

/// The last good place of a path belongs to the deepest good node.
proof fn lemma_place_is_deepest(
    tree: TreeIndex,
    root: int,
    lower: Seq<usize>,
    min_tree: &MinTree,
    e: int,
    bottom: int,
    x: int,
    p: int,
    from: int,
)
    requires
        tree.wf(root),
        0 <= e < tree.count(),
        0 <= bottom < tree.count(),
        0 <= x < tree.count(),
        tree.tin@[tree.head@[x] as int] <= p <= tree.tin@[x],
        from <= p,
        forall|q: int|
            0 <= q < tree.count() ==> #[trigger] min_tree.leaf(q) == lower[tree.at_pos@[q] as int],
        forall|q: int| p < q < tree.tin@[x] + 1 ==> #[trigger] min_tree.leaf(q) > tree.depth@[e],
        forall|y: int| #[trigger] is_good(tree, lower, e, bottom, y) ==> tree.above(y, x),
        is_good(tree, lower, e, bottom, tree.at_pos@[p] as int),
    ensures
        is_deepest_good(tree, lower, e, bottom, tree.at_pos@[p] as int),
{
    let best = tree.at_pos@[p] as int;
    let (parent, depth) = (tree.parent@, tree.depth@);
    lemma_path_places(tree, root, x, p);
    assert(tree.tin@[best] == p);
    assert forall|y: int| #[trigger] is_good(tree, lower, e, bottom, y) implies tree.above(y, best) by {
        lemma_above_on_path(tree, root, y, x);
        let q = tree.tin@[y] as int;
        assert(tree.at_pos@[q] == y);
        assert(min_tree.leaf(q) == lower[y]);
        assert(q <= p);
        if depth[y] <= depth[best] {
            lemma_above_ordered(parent, root, depth, y, best, x);
        } else {
            lemma_above_ordered(parent, root, depth, best, y, x);
            assert(tree.above(best, y));
        }
    }
}

} // verus!
