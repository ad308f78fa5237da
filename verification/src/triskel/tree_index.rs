//! An index over a rooted tree: ancestor tests, lowest common ancestors, heavy paths.
use crate::counting::lemma_distinct_in_range;
use crate::graph::analysis::nesting::is_increasing;
use vstd::prelude::*;

verus! {

/// `parent` is a tree with the given root, and `depth` the distances from the root.
pub open spec fn is_tree(parent: Seq<usize>, root: int, depth: Seq<usize>) -> bool {
    &&& depth.len() == parent.len()
    &&& 0 <= root < parent.len()
    &&& parent[root] == root
    &&& depth[root] == 0
    &&& forall|v: int|
        #![trigger parent[v]]
        #![trigger depth[v]]
        0 <= v < parent.len() && v != root ==> parent[v] < parent.len() && depth[v]
            == depth[parent[v] as int] + 1
}

/// `a` is `b` or one of its ancestors.
pub open spec fn is_above(parent: Seq<usize>, depth: Seq<usize>, a: int, b: int) -> bool
    decreases depth[b],
{
    a == b || (0 <= b < parent.len() && depth[parent[b] as int] < depth[b] && is_above(
        parent,
        depth,
        a,
        parent[b] as int,
    ))
}

pub proof fn lemma_above_depth(parent: Seq<usize>, root: int, depth: Seq<usize>, a: int, b: int)
    requires
        is_tree(parent, root, depth),
        is_above(parent, depth, a, b),
        0 <= b < parent.len(),
    ensures
        0 <= a < parent.len(),
        depth[a] <= depth[b],
        depth[a] == depth[b] ==> a == b,
    decreases depth[b],
{
    if a != b {
        lemma_above_depth(parent, root, depth, a, parent[b] as int);
    }
}

pub proof fn lemma_above_transitive(parent: Seq<usize>, depth: Seq<usize>, a: int, b: int, c: int)
    requires
        is_above(parent, depth, a, b),
        is_above(parent, depth, b, c),
    ensures
        is_above(parent, depth, a, c),
    decreases depth[c],
{
    if b != c {
        lemma_above_transitive(parent, depth, a, b, parent[c] as int);
    }
}

/// The ancestors of a node form a chain, ordered by depth.
pub proof fn lemma_above_ordered(
    parent: Seq<usize>,
    root: int,
    depth: Seq<usize>,
    a: int,
    b: int,
    c: int,
)
    requires
        is_tree(parent, root, depth),
        is_above(parent, depth, a, c),
        is_above(parent, depth, b, c),
        0 <= c < parent.len(),
        depth[a] <= depth[b],
    ensures
        is_above(parent, depth, a, b),
    decreases depth[c],
{
    lemma_above_depth(parent, root, depth, b, c);
    lemma_above_depth(parent, root, depth, a, c);
    if b != c && a != c {
        lemma_above_ordered(parent, root, depth, a, b, parent[c] as int);
    } else if a == c {
        assert(depth[b] == depth[c]);
    }
}

pub proof fn lemma_root_above(parent: Seq<usize>, root: int, depth: Seq<usize>, v: int)
    requires
        is_tree(parent, root, depth),
        0 <= v < parent.len(),
    ensures
        is_above(parent, depth, root, v),
    decreases depth[v],
{
    if v != root {
        lemma_root_above(parent, root, depth, parent[v] as int);
    }
}

/// A node has its parent above it, and whatever is above it and is not the node is above
/// the parent.
pub proof fn lemma_parent_above(
    parent: Seq<usize>,
    root: int,
    depth: Seq<usize>,
    a: int,
    v: int,
)
    requires
        is_tree(parent, root, depth),
        0 <= v < parent.len(),
        v != root,
    ensures
        is_above(parent, depth, parent[v] as int, v),
        is_above(parent, depth, a, v) && a != v ==> is_above(parent, depth, a, parent[v] as int),
{
    assert(is_above(parent, depth, parent[v] as int, parent[v] as int));
}

/// `children` lists, for each node, the nodes whose parent it is, ascending.
pub open spec fn lists_all_children(
    parent: Seq<usize>,
    root: int,
    children: Seq<Vec<usize>>,
) -> bool {
    &&& children.len() == parent.len()
    &&& forall|p: int| 0 <= p < children.len() ==> is_increasing((#[trigger] children[p])@)
    &&& forall|p: int, c: usize|
        0 <= p < children.len() ==> (#[trigger] children[p]@.contains(c) <==> c < parent.len() && c
            != root && parent[c as int] == p)
}

/// Every descendant of `v` other than `v` is below one of its children.
proof fn lemma_below_child(parent: Seq<usize>, root: int, depth: Seq<usize>, v: int, x: int) -> (c:
    int)
    requires
        is_tree(parent, root, depth),
        0 <= v < parent.len(),
        0 <= x < parent.len(),
        is_above(parent, depth, v, x),
        v != x,
    ensures
        0 <= c < parent.len(),
        c != root,
        parent[c] == v,
        is_above(parent, depth, c, x),
    decreases depth[x],
{
    if parent[x] == v {
        assert(is_above(parent, depth, x, x));
        lemma_above_depth(parent, root, depth, v, x);
        x
    } else {
        let c = lemma_below_child(parent, root, depth, v, parent[x] as int);
        c
    }
}

/// The tables that a walk over the tree fills in: when each node is entered and left, the
/// order of the nodes, and the top node of the path that each is on.
pub(crate) struct Tables {
    pub tin: Vec<usize>,
    pub tout: Vec<usize>,
    pub head: Vec<usize>,
    pub at_pos: Vec<usize>,
    pub cursor: usize,
}

impl Tables {
    pub(crate) open spec fn wf(&self, n: int) -> bool {
        &&& self.tin@.len() == n
        &&& self.tout@.len() == n
        &&& self.head@.len() == n
        &&& self.at_pos@.len() == n
        &&& self.cursor <= n
        &&& forall|p: int|
            0 <= p < self.cursor ==> #[trigger] self.at_pos@[p] < n
                && self.tin@[self.at_pos@[p] as int] == p
    }

    /// The interval of `x` holds exactly its descendants.
    pub(crate) open spec fn entered(&self, parent: Seq<usize>, depth: Seq<usize>, x: int) -> bool {
        &&& self.tin@[x] < self.tout@[x] <= self.cursor
        &&& self.at_pos@[self.tin@[x] as int] == x
        &&& forall|p: int|
            self.tin@[x] <= p < self.tout@[x] ==> is_above(
                parent,
                depth,
                x,
                #[trigger] self.at_pos@[p] as int,
            )
        &&& forall|y: int|
            0 <= y < parent.len() && #[trigger] is_above(parent, depth, x, y) ==> self.tin@[x]
                <= self.tin@[y] < self.tout@[x]
    }

    /// A heavy child follows its parent on the path; any other is the top of its own.
    pub(crate) open spec fn on_path(
        &self,
        parent: Seq<usize>,
        heavy: Seq<Option<usize>>,
        x: int,
    ) -> bool {
        let up = parent[x] as int;
        if heavy[up] == Some(x as usize) {
            self.head@[x] == self.head@[up] && self.tin@[x] == self.tin@[up] + 1
        } else {
            self.head@[x] == x
        }
    }

    /// The children of `x` but the heavy one are entered in ascending order.
    pub(crate) open spec fn in_order(
        &self,
        parent: Seq<usize>,
        root: int,
        heavy: Seq<Option<usize>>,
        x: int,
    ) -> bool {
        forall|c: int, d: int|
            0 <= c < d < parent.len() && c != root && d != root && parent[c] == x && parent[d] == x
                && heavy[x] != Some(c as usize) && heavy[x] != Some(d as usize)
                ==> #[trigger] self.tin@[c] < #[trigger] self.tin@[d]
    }

    /// `best` is the first of the largest nodes of a list, if there is any.
    pub(crate) open spec fn is_heavy(&self, list: Seq<usize>, best: Option<usize>) -> bool {
        match best {
            Some(b) => list.contains(b) && forall|d: usize| #[trigger]
                list.contains(d) && d != b ==> {
                    let (x, y) = (
                        self.tout@[b as int] - self.tin@[b as int],
                        self.tout@[d as int] - self.tin@[d as int],
                    );
                    y < x || (y == x && b < d)
                },
            None => forall|d: usize| !#[trigger] list.contains(d),
        }
    }

    /// Nothing has changed but in the tables of the descendants of `v`, and at the places
    /// from `before.cursor` on.
    pub(crate) open spec fn only_below(
        &self,
        before: &Self,
        parent: Seq<usize>,
        depth: Seq<usize>,
        v: int,
    ) -> bool {
        &&& forall|y: int|
            #![trigger self.tin@[y]]
            #![trigger self.tout@[y]]
            #![trigger self.head@[y]]
            0 <= y < parent.len() && !is_above(parent, depth, v, y) ==> self.tin@[y]
                == before.tin@[y] && self.tout@[y] == before.tout@[y] && self.head@[y]
                == before.head@[y]
        &&& forall|p: int| 0 <= p < before.cursor ==> #[trigger] self.at_pos@[p] == before.at_pos@[p]
    }

    /// What has been entered stays so while the tree below another node is walked.
    proof fn lemma_entered_stays(
        &self,
        before: &Self,
        parent: Seq<usize>,
        root: int,
        depth: Seq<usize>,
        v: int,
        x: int,
    )
        requires
            is_tree(parent, root, depth),
            0 <= x < parent.len(),
            0 <= v < parent.len(),
            before.wf(parent.len() as int),
            before.entered(parent, depth, x),
            self.only_below(before, parent, depth, v),
            before.cursor <= self.cursor,
            !is_above(parent, depth, v, x),
            !is_above(parent, depth, x, v),
        ensures
            self.entered(parent, depth, x),
    {
        assert(self.tin@[x] == before.tin@[x] && self.tout@[x] == before.tout@[x]);
        assert forall|p: int| self.tin@[x] <= p < self.tout@[x] implies is_above(
            parent,
            depth,
            x,
            #[trigger] self.at_pos@[p] as int,
        ) by {
            assert(self.at_pos@[p] == before.at_pos@[p]);
        }
        assert forall|y: int| 0 <= y < parent.len() && #[trigger] is_above(
            parent,
            depth,
            x,
            y,
        ) implies self.tin@[x] <= self.tin@[y] < self.tout@[x] by {
            if is_above(parent, depth, v, y) {
                if depth[v] <= depth[x] {
                    lemma_above_ordered(parent, root, depth, v, x, y);
                } else {
                    lemma_above_ordered(parent, root, depth, x, v, y);
                }
            }
            assert(self.tin@[y] == before.tin@[y]);
        }
    }

    /// Nothing below `c` has been entered.
    spec fn untouched(&self, parent: Seq<usize>, depth: Seq<usize>, c: usize) -> bool {
        forall|p: int|
            0 <= p < self.cursor ==> !is_above(
                parent,
                depth,
                c as int,
                #[trigger] self.at_pos@[p] as int,
            )
    }

    /// The walk below `v` has begun at `start`, and is done with the children in `done`.
    spec fn walk_inv(
        &self,
        before: &Self,
        parent: Seq<usize>,
        root: int,
        depth: Seq<usize>,
        heavy: Seq<Option<usize>>,
        v: int,
        h: usize,
        done: Set<usize>,
        start: int,
    ) -> bool {
        &&& self.wf(parent.len() as int)
        &&& self.only_below(before, parent, depth, v)
        &&& self.head@[v] == h
        &&& self.tin@[v] == start
        &&& start < self.cursor
        &&& self.at_pos@[start] == v
        &&& forall|p: int|
            start <= p < self.cursor ==> is_above(parent, depth, v, #[trigger] self.at_pos@[p] as int)
        &&& forall|c: usize| #[trigger]
            done.contains(c) ==> c < parent.len() && c != root && parent[c as int] == v
        &&& forall|c: usize, x: int|
            done.contains(c) && 0 <= x < parent.len() && #[trigger] is_above(
                parent,
                depth,
                c as int,
                x,
            ) ==> self.entered(parent, depth, x) && self.on_path(parent, heavy, x) && self.in_order(
                parent,
                root,
                heavy,
                x,
            )
        &&& forall|c: usize|
            c < parent.len() && c != root && parent[c as int] == v && !done.contains(c)
                ==> #[trigger] self.untouched(parent, depth, c)
    }

    /// Walks the tree below `v`, which is on the path that begins at `h`; the child
    /// `heavy[v]`, if there is one, continues the path.
    #[verifier::rlimit(40)]
    pub(crate) fn decompose(
        &mut self,
        Ghost(parent): Ghost<Seq<usize>>,
        Ghost(root): Ghost<int>,
        Ghost(depth): Ghost<Seq<usize>>,
        children: &Vec<Vec<usize>>,
        heavy: &Vec<Option<usize>>,
        v: usize,
        h: usize,
    )
        requires
            is_tree(parent, root, depth),
            parent.len() <= usize::MAX,
            lists_all_children(parent, root, children@),
            heavy@.len() == parent.len(),
            forall|p: int|
                0 <= p < heavy@.len() && (#[trigger] heavy@[p]) is Some ==> children@[p]@.contains(
                    heavy@[p]->0,
                ),
            old(self).wf(parent.len() as int),
            v < parent.len(),
            forall|p: int|
                0 <= p < old(self).cursor ==> !is_above(
                    parent,
                    depth,
                    v as int,
                    #[trigger] old(self).at_pos@[p] as int,
                ),
        ensures
            final(self).wf(parent.len() as int),
            final(self).only_below(old(self), parent, depth, v as int),
            old(self).cursor < final(self).cursor,
            final(self).tin@[v as int] == old(self).cursor,
            final(self).tout@[v as int] == final(self).cursor,
            final(self).head@[v as int] == h,
            forall|x: int|
                0 <= x < parent.len() && is_above(parent, depth, v as int, x)
                    ==> #[trigger] final(self).entered(parent, depth, x),
            forall|x: int|
                0 <= x < parent.len() && is_above(parent, depth, v as int, x) && x != v
                    ==> #[trigger] final(self).on_path(parent, heavy@, x),
            forall|x: int|
                0 <= x < parent.len() && is_above(parent, depth, v as int, x)
                    ==> #[trigger] final(self).in_order(parent, root, heavy@, x),
            forall|p: int|
                old(self).cursor <= p < final(self).cursor ==> is_above(
                    parent,
                    depth,
                    v as int,
                    #[trigger] final(self).at_pos@[p] as int,
                ),
        decreases usize::MAX - depth[v as int],
    {
        let ghost n = parent.len();
        let ghost before = *self;
        let start: usize = self.cursor;
        proof {
            let seen = Seq::new(start as nat, |p: int| before.at_pos@[p] as int).push(v as int);
            assert(is_above(parent, depth, v as int, v as int));
            assert forall|i: int, j: int|
                0 <= i < seen.len() && 0 <= j < seen.len() && i != j implies seen[i] != seen[j] by {
                if i < start && j < start {
                    assert(before.tin@[before.at_pos@[i] as int] == i);
                    assert(before.tin@[before.at_pos@[j] as int] == j);
                } else if i < start {
                    assert(!is_above(parent, depth, v as int, before.at_pos@[i] as int));
                } else if j < start {
                    assert(!is_above(parent, depth, v as int, before.at_pos@[j] as int));
                }
            }
            assert forall|i: int| 0 <= i < seen.len() implies 0 <= #[trigger] seen[i] < n by {
                if i < start {
                    assert(before.at_pos@[i] < n);
                }
            }
            lemma_distinct_in_range(seen, 0, n as int);
        }
        self.head.set(v, h);
        self.tin.set(v, start);
        self.at_pos.set(start, v);
        self.cursor = start + 1;
        proof {
            assert forall|p: int| 0 <= p < self.cursor implies #[trigger] self.at_pos@[p] < n
                && self.tin@[self.at_pos@[p] as int] == p by {
                if p < start {
                    assert(before.at_pos@[p] < n);
                    assert(before.at_pos@[p] != v);
                }
            }
            assert(self.only_below(&before, parent, depth, v as int));
            assert forall|c: usize|
                c < n && c != root && parent[c as int] == v implies #[trigger] self.untouched(
                parent,
                depth,
                c,
            ) by {
                assert forall|p: int| 0 <= p < self.cursor implies !is_above(
                    parent,
                    depth,
                    c as int,
                    #[trigger] self.at_pos@[p] as int,
                ) by {
                    let x = self.at_pos@[p] as int;
                    if is_above(parent, depth, c as int, x) {
                        lemma_parent_above(parent, root, depth, v as int, c as int);
                        if p < start {
                            lemma_above_transitive(parent, depth, v as int, c as int, x);
                            assert(before.at_pos@[p] == x);
                        } else {
                            lemma_above_depth(parent, root, depth, c as int, x);
                        }
                    }
                }
            }
            assert(self.walk_inv(
                &before,
                parent,
                root,
                depth,
                heavy@,
                v as int,
                h,
                Set::empty(),
                start as int,
            ));
        }
        let ghost mut done: Set<usize> = Set::empty();
        match heavy[v] {
            Some(child) => {
                let ghost mid = *self;
                proof {
                    assert(heavy@[v as int] is Some);
                    assert(children@[v as int]@.contains(child));
                    lemma_parent_above(parent, root, depth, v as int, child as int);
                    assert(self.untouched(parent, depth, child));
                }
                self.decompose(
                    Ghost(parent),
                    Ghost(root),
                    Ghost(depth),
                    children,
                    heavy,
                    child,
                    h,
                );
                proof {
                    lemma_child_step(&before, &mid, self, parent, root, depth, heavy@, v as int, h, child, done, start as int);
                    done = done.insert(child);
                }
            },
            None => {},
        }
        let list = &children[v];
        for j in 0..list.len()
            invariant
                n == parent.len(),
                is_tree(parent, root, depth),
                parent.len() <= usize::MAX,
                lists_all_children(parent, root, children@),
                heavy@.len() == parent.len(),
                forall|p: int|
                    0 <= p < heavy@.len() && (#[trigger] heavy@[p]) is Some
                        ==> children@[p]@.contains(heavy@[p]->0),
                v < parent.len(),
                list@ == children@[v as int]@,
                start == before.cursor,
                before.wf(n as int),
                self.walk_inv(&before, parent, root, depth, heavy@, v as int, h, done, start as int),
                forall|k: int|
                    0 <= k < j && heavy@[v as int] != Some(#[trigger] list@[k])
                        ==> self.tin@[list@[k] as int] < self.cursor,
                forall|k: int, l: int|
                    0 <= k < l < j && heavy@[v as int] != Some(#[trigger] list@[k])
                        && heavy@[v as int] != Some(#[trigger] list@[l])
                        ==> self.tin@[list@[k] as int] < self.tin@[list@[l] as int],
                forall|c: usize| #[trigger] done.contains(c) <==> heavy@[v as int] == Some(c)
                    || exists|k: int| 0 <= k < j && list@[k] == c,
        {
            let child: usize = list[j];
            let is_heavy = match heavy[v] {
                Some(c) => c == child,
                None => false,
            };
            let ghost done0 = done;
            if !is_heavy {
                let ghost mid = *self;
                proof {
                    assert(children@[v as int]@.contains(child));
                    lemma_parent_above(parent, root, depth, v as int, child as int);
                    assert(!done.contains(child));
                    assert(self.untouched(parent, depth, child));
                }
                self.decompose(
                    Ghost(parent),
                    Ghost(root),
                    Ghost(depth),
                    children,
                    heavy,
                    child,
                    child,
                );
                proof {
                    lemma_child_step(&before, &mid, self, parent, root, depth, heavy@, v as int, h, child, done, start as int);
                    done = done.insert(child);
                    assert forall|k: int|
                        0 <= k < j && heavy@[v as int] != Some(#[trigger] list@[k]) implies self.tin@[list@[k] as int]
                        == mid.tin@[list@[k] as int] by {
                        let c = list@[k];
                        assert(list@[k] < list@[j as int]);
                        assert(children@[v as int]@.contains(c));
                        assert(is_above(parent, depth, c as int, c as int));
                        lemma_siblings_apart(
                            parent,
                            root,
                            depth,
                            v as int,
                            c as int,
                            child as int,
                            c as int,
                        );
                    }
                }
            }
            proof {
                assert forall|c: usize| #[trigger] done.contains(c) <==> heavy@[v as int] == Some(c)
                    || exists|k: int| 0 <= k < j + 1 && list@[k] == c by {
                    if done.contains(c) && c == child {
                        assert(list@[j as int] == c);
                    }
                    if exists|k: int| 0 <= k < j + 1 && list@[k] == c {
                        let k = choose|k: int| 0 <= k < j + 1 && list@[k] == c;
                        if k < j {
                            assert(done0.contains(c));
                        }
                    }
                    if done0.contains(c) && heavy@[v as int] != Some(c) {
                        let k = choose|k: int| 0 <= k < j && list@[k] == c;
                        assert(list@[k] == c);
                    }
                }
            }
        }
        let ghost mid = *self;
        self.tout.set(v, self.cursor);
        proof {
            assert forall|c: usize|
                c < n && c != root && parent[c as int] == v implies #[trigger] done.contains(c) by {
                assert(children@[v as int]@.contains(c));
                let k = list@.index_of(c);
                assert(list@[k] == c);
            }
            assert forall|x: int|
                0 <= x < n && is_above(parent, depth, v as int, x) && x != v implies
                #[trigger] self.entered(parent, depth, x) && self.on_path(parent, heavy@, x)
                && self.in_order(parent, root, heavy@, x) by {
                let c = lemma_below_child(parent, root, depth, v as int, x);
                assert(done.contains(c as usize));
                assert(is_above(parent, depth, (c as usize) as int, x));
                assert(mid.entered(parent, depth, x));
            }
            assert forall|x: int|
                0 <= x < n && is_above(parent, depth, v as int, x) && x != v implies
                #[trigger] self.on_path(parent, heavy@, x) by {
                assert(self.entered(parent, depth, x));
            }
            assert(self.in_order(parent, root, heavy@, v as int)) by {
                assert forall|c: int, d: int|
                    0 <= c < d < parent.len() && c != root && d != root && parent[c] == v
                        && parent[d] == v && heavy@[v as int] != Some(c as usize)
                        && heavy@[v as int] != Some(d as usize) implies #[trigger] self.tin@[c]
                    < #[trigger] self.tin@[d] by {
                    assert(list@.contains(c as usize) && list@.contains(d as usize));
                    let (k, l) = (list@.index_of(c as usize), list@.index_of(d as usize));
                    if l < k {
                        assert(list@[l] < list@[k]);
                    }
                    assert(list@[k] == c && list@[l] == d);
                }
            }
            assert forall|x: int| 0 <= x < n && is_above(parent, depth, v as int, x) implies
                #[trigger] self.in_order(parent, root, heavy@, x) by {
                if x != v {
                    assert(self.entered(parent, depth, x));
                }
            }
            assert forall|y: int| 0 <= y < n && #[trigger] is_above(
                parent,
                depth,
                v as int,
                y,
            ) implies start <= self.tin@[y] < self.cursor by {
                if y != v {
                    assert(self.entered(parent, depth, y));
                    let p = self.tin@[y] as int;
                    assert(self.at_pos@[p] == y);
                    if p < start {
                        assert(before.at_pos@[p] == y);
                    }
                }
            }
            assert(self.entered(parent, depth, v as int));
        }
    }
}

/// Walking the tree below a child brings the walk below its parent one step further.
#[verifier::rlimit(40)]
proof fn lemma_child_step(
    before: &Tables,
    mid: &Tables,
    after: &Tables,
    parent: Seq<usize>,
    root: int,
    depth: Seq<usize>,
    heavy: Seq<Option<usize>>,
    v: int,
    h: usize,
    child: usize,
    done: Set<usize>,
    start: int,
)
    requires
        is_tree(parent, root, depth),
        0 <= v < parent.len(),
        child < parent.len(),
        child != root,
        parent[child as int] == v,
        !done.contains(child),
        before.cursor == start,
        mid.walk_inv(before, parent, root, depth, heavy, v, h, done, start),
        after.wf(parent.len() as int),
        after.only_below(mid, parent, depth, child as int),
        mid.cursor < after.cursor,
        after.tin@[child as int] == mid.cursor,
        if heavy[v] == Some(child) {
            after.head@[child as int] == h && mid.cursor == start + 1
        } else {
            after.head@[child as int] == child
        },
        forall|x: int|
            0 <= x < parent.len() && is_above(parent, depth, child as int, x)
                ==> #[trigger] after.entered(parent, depth, x),
        forall|x: int|
            0 <= x < parent.len() && is_above(parent, depth, child as int, x) && x != child
                ==> #[trigger] after.on_path(parent, heavy, x),
        forall|x: int|
            0 <= x < parent.len() && is_above(parent, depth, child as int, x)
                ==> #[trigger] after.in_order(parent, root, heavy, x),
        forall|p: int|
            mid.cursor <= p < after.cursor ==> is_above(
                parent,
                depth,
                child as int,
                #[trigger] after.at_pos@[p] as int,
            ),
    ensures
        after.walk_inv(before, parent, root, depth, heavy, v, h, done.insert(child), start),
{
    let n = parent.len();
    let all = done.insert(child);
    lemma_parent_above(parent, root, depth, v, child as int);
    assert(!is_above(parent, depth, child as int, v)) by {
        if is_above(parent, depth, child as int, v) {
            lemma_above_depth(parent, root, depth, child as int, v);
        }
    }
    assert(after.head@[v] == mid.head@[v] && after.tin@[v] == mid.tin@[v]);
    assert(after.at_pos@[start] == mid.at_pos@[start]);
    assert(after.only_below(before, parent, depth, v)) by {
        assert forall|y: int|
            #![trigger after.tin@[y]]
            #![trigger after.tout@[y]]
            #![trigger after.head@[y]]
            0 <= y < n && !is_above(parent, depth, v, y) implies after.tin@[y] == before.tin@[y]
            && after.tout@[y] == before.tout@[y] && after.head@[y] == before.head@[y] by {
            if is_above(parent, depth, child as int, y) {
                lemma_above_transitive(parent, depth, v, child as int, y);
            }
            assert(after.tin@[y] == mid.tin@[y]);
            assert(mid.tin@[y] == before.tin@[y]);
        }
        assert forall|p: int| 0 <= p < before.cursor implies #[trigger] after.at_pos@[p]
            == before.at_pos@[p] by {
            assert(mid.at_pos@[p] == before.at_pos@[p]);
        }
    }
    assert forall|p: int| start <= p < after.cursor implies is_above(
        parent,
        depth,
        v,
        #[trigger] after.at_pos@[p] as int,
    ) by {
        if p < mid.cursor {
            assert(after.at_pos@[p] == mid.at_pos@[p]);
        } else {
            lemma_above_transitive(parent, depth, v, child as int, after.at_pos@[p] as int);
        }
    }
    assert forall|c: usize, x: int|
        all.contains(c) && 0 <= x < n && #[trigger] is_above(parent, depth, c as int, x) implies after.entered(
        parent,
        depth,
        x,
    ) && after.on_path(parent, heavy, x) && after.in_order(parent, root, heavy, x) by {
        if c == child {
            assert(after.entered(parent, depth, x));
            assert(after.in_order(parent, root, heavy, x));
            if x != child {
                assert(after.on_path(parent, heavy, x));
            }
        } else {
            lemma_siblings_apart(parent, root, depth, v, c as int, child as int, x);
            assert(mid.entered(parent, depth, x) && mid.on_path(parent, heavy, x));
            assert(mid.in_order(parent, root, heavy, x));
            assert(!is_above(parent, depth, x, child as int)) by {
                if is_above(parent, depth, x, child as int) {
                    lemma_above_transitive(parent, depth, c as int, x, child as int);
                    lemma_above_depth(parent, root, depth, c as int, child as int);
                }
            }
            after.lemma_entered_stays(mid, parent, root, depth, child as int, x);
            assert(after.head@[x] == mid.head@[x] && after.tin@[x] == mid.tin@[x]);
            let up = parent[x] as int;
            if x == c {
                assert(after.tin@[v] == mid.tin@[v]);
            } else {
                lemma_parent_above(parent, root, depth, c as int, x);
                lemma_siblings_apart(parent, root, depth, v, c as int, child as int, up);
                assert(after.head@[up] == mid.head@[up] && after.tin@[up] == mid.tin@[up]);
            }
            assert(after.in_order(parent, root, heavy, x)) by {
                assert forall|e: int| 0 <= e < n && e != root && #[trigger] parent[e] == x implies after.tin@[e]
                    == mid.tin@[e] by {
                    lemma_parent_above(parent, root, depth, x, e);
                    lemma_above_transitive(parent, depth, c as int, x, e);
                    lemma_siblings_apart(parent, root, depth, v, c as int, child as int, e);
                }
            }
        }
    }
    assert forall|c: usize|
        c < n && c != root && parent[c as int] == v && !all.contains(c) implies
        #[trigger] after.untouched(parent, depth, c) by {
        assert(mid.untouched(parent, depth, c));
        assert forall|p: int| 0 <= p < after.cursor implies !is_above(
            parent,
            depth,
            c as int,
            #[trigger] after.at_pos@[p] as int,
        ) by {
            if p < mid.cursor {
                assert(after.at_pos@[p] == mid.at_pos@[p]);
            } else {
                let x = after.at_pos@[p] as int;
                lemma_siblings_apart(parent, root, depth, v, child as int, c as int, x);
            }
        }
    }
}

/// What is below one child is not below another.
proof fn lemma_siblings_apart(
    parent: Seq<usize>,
    root: int,
    depth: Seq<usize>,
    v: int,
    c: int,
    d: int,
    x: int,
)
    requires
        is_tree(parent, root, depth),
        0 <= c < parent.len(),
        0 <= d < parent.len(),
        0 <= x < parent.len(),
        c != root,
        d != root,
        parent[c] == v,
        parent[d] == v,
        c != d,
        is_above(parent, depth, c, x),
    ensures
        !is_above(parent, depth, d, x),
{
    assert(depth[c] == depth[parent[c] as int] + 1);
    assert(depth[d] == depth[parent[d] as int] + 1);
    if is_above(parent, depth, d, x) {
        lemma_above_ordered(parent, root, depth, c, d, x);
        lemma_above_depth(parent, root, depth, c, d);
    }
}

/// The node `k` steps above `v`; the root is above itself.
pub open spec fn steps_up(parent: Seq<usize>, v: int, k: nat) -> int
    decreases k,
{
    if k == 0 {
        v
    } else {
        steps_up(parent, parent[v] as int, (k - 1) as nat)
    }
}

proof fn lemma_steps_split(parent: Seq<usize>, v: int, j: nat, k: nat)
    ensures
        steps_up(parent, steps_up(parent, v, j), k) == steps_up(parent, v, j + k),
    decreases j,
{
    if j > 0 {
        lemma_steps_split(parent, parent[v] as int, (j - 1) as nat, k);
    }
}

/// Steps lead up until the root is met.
proof fn lemma_steps_depth(parent: Seq<usize>, root: int, depth: Seq<usize>, v: int, k: nat)
    requires
        is_tree(parent, root, depth),
        0 <= v < parent.len(),
    ensures
        0 <= steps_up(parent, v, k) < parent.len(),
        is_above(parent, depth, steps_up(parent, v, k), v),
        k <= depth[v] ==> depth[steps_up(parent, v, k)] == depth[v] - k,
        k >= depth[v] ==> steps_up(parent, v, k) == root,
    decreases k,
{
    if k > 0 {
        if v == root {
            lemma_steps_depth(parent, root, depth, root, (k - 1) as nat);
        } else {
            lemma_steps_depth(parent, root, depth, parent[v] as int, (k - 1) as nat);
            lemma_parent_above(parent, root, depth, v, v);
            lemma_above_transitive(
                parent,
                depth,
                steps_up(parent, v, k),
                parent[v] as int,
                v,
            );
        }
    } else {
        if depth[v] == 0 && v != root {
            assert(depth[v] == depth[parent[v] as int] + 1);
        }
    }
}

/// Two to the power of `k`.
pub open spec fn power_of_two(k: nat) -> nat
    decreases k,
{
    if k == 0 {
        1
    } else {
        2 * power_of_two((k - 1) as nat)
    }
}

/// An index over a tree of numbered nodes.
///
/// `tin` and `tout` bound the places of the descendants of a node in a walk over the
/// tree, and `at_pos` lists the nodes in the order of the walk. The nodes of a path,
/// which begins at the node `head`, have consecutive places. `up[k][v]` is the node two
/// to the power of `k` steps above `v`.
pub struct TreeIndex {
    pub parent: Vec<usize>,
    pub depth: Vec<usize>,
    pub tin: Vec<usize>,
    pub tout: Vec<usize>,
    pub size: Vec<usize>,
    pub head: Vec<usize>,
    pub at_pos: Vec<usize>,
    pub up: Vec<Vec<usize>>,
}

impl TreeIndex {
    /// `a` is `b` or one of its ancestors.
    pub open spec fn above(&self, a: int, b: int) -> bool {
        is_above(self.parent@, self.depth@, a, b)
    }

    pub open spec fn count(&self) -> int {
        self.parent@.len() as int
    }

    /// `v` is the head of its path, or follows its parent on the path.
    pub open spec fn on_path(&self, root: int, v: int) -> bool {
        let up = self.parent@[v] as int;
        self.head@[v] < self.count() && (self.head@[v] == v || (v != root && self.head@[v]
            == self.head@[up] && self.tin@[v] == self.tin@[up] + 1))
    }

    pub open spec fn wf(&self, root: int) -> bool {
        let n = self.count();
        &&& is_tree(self.parent@, root, self.depth@)
        &&& self.tin@.len() == n
        &&& self.tout@.len() == n
        &&& self.size@.len() == n
        &&& self.head@.len() == n
        &&& self.at_pos@.len() == n
        &&& forall|v: int|
            #![trigger self.tin@[v]]
            #![trigger self.tout@[v]]
            0 <= v < n ==> self.tin@[v] < self.tout@[v] <= n && self.at_pos@[self.tin@[v] as int] == v
        &&& forall|v: int| 0 <= v < n ==> #[trigger] self.size@[v] == self.tout@[v] - self.tin@[v]
        &&& forall|p: int|
            0 <= p < n ==> #[trigger] self.at_pos@[p] < n && self.tin@[self.at_pos@[p] as int] == p
        &&& forall|a: int, b: int|
            0 <= a < n && 0 <= b < n ==> (#[trigger] self.above(a, b) <==> self.tin@[a]
                <= self.tin@[b] < self.tout@[a])
        &&& forall|v: int| 0 <= v < n ==> #[trigger] self.on_path(root, v)
        &&& forall|k: int| 0 <= k < self.up@.len() ==> (#[trigger] self.up@[k])@.len() == n
        &&& forall|k: int, v: int|
            0 <= k < self.up@.len() && 0 <= v < n ==> #[trigger] self.up@[k]@[v] == steps_up(
                self.parent@,
                v,
                power_of_two(k as nat),
            )
        &&& n < power_of_two(self.up@.len())
    }

    /// `c` is the first of the largest children of its parent.
    pub open spec fn is_heavy(&self, root: int, c: int) -> bool {
        forall|d: int|
            #![trigger self.parent@[d]]
            0 <= d < self.count() && d != root && d != c && self.parent@[d] == self.parent@[c]
                ==> self.size@[d] < self.size@[c] || (self.size@[d] == self.size@[c] && c < d)
    }

    /// Paths follow the first of the largest children, which comes right after its parent;
    /// the other children begin paths of their own, and come in ascending order.
    pub open spec fn follows_the_largest(&self, root: int) -> bool {
        &&& self.head@[root] == root
        &&& forall|c: int|
            #![trigger self.head@[c]]
            0 <= c < self.count() && c != root ==> if self.is_heavy(root, c) {
                self.head@[c] == self.head@[self.parent@[c] as int] && self.tin@[c]
                    == self.tin@[self.parent@[c] as int] + 1
            } else {
                self.head@[c] == c
            }
        &&& forall|c: int, d: int|
            0 <= c < d < self.count() && c != root && d != root && self.parent@[c]
                == self.parent@[d] && !self.is_heavy(root, c) && !self.is_heavy(root, d)
                ==> #[trigger] self.tin@[c] < #[trigger] self.tin@[d]
    }

    /// Whether `a` is `b` or one of its ancestors.
    pub fn dominates(&self, Ghost(root): Ghost<int>, a: usize, b: usize) -> (r: bool)
        requires
            self.wf(root),
            a < self.count(),
            b < self.count(),
        ensures
            r == self.above(a as int, b as int),
    {
        self.tin[a] <= self.tin[b] && self.tin[b] < self.tout[a]
    }

    /// `c` is the lowest common ancestor of `a` and `b`.
    pub open spec fn is_lca(&self, a: int, b: int, c: int) -> bool {
        &&& 0 <= c < self.count()
        &&& self.above(c, a)
        &&& self.above(c, b)
        &&& forall|x: int| #[trigger] self.above(x, a) && self.above(x, b) ==> self.above(x, c)
    }

    /// The lowest common ancestor.
    pub fn lca(&self, Ghost(root): Ghost<int>, a: usize, b: usize) -> (c: usize)
        requires
            self.wf(root),
            a < self.count(),
            b < self.count(),
        ensures
            self.is_lca(a as int, b as int, c as int),
    {
        if self.dominates(Ghost(root), a, b) {
            assert(self.above(a as int, a as int));
            return a;
        }
        if self.dominates(Ghost(root), b, a) {
            assert(self.above(b as int, b as int));
            return b;
        }
        let ghost (parent, depth) = (self.parent@, self.depth@);
        let ghost n = self.count();
        let mut x: usize = a;
        let mut level: usize = self.up.len();
        // The distance from `x` to the lowest node above it that is above `b`, less one.
        let ghost goal = lemma_first_above(parent, root, depth, a as int, b as int);
        proof {
            lemma_depth_bound(parent, root, depth, a as int);
        }
        let ghost mut left: nat = (goal - 1) as nat;
        while level > 0
            invariant
                self.wf(root),
                parent == self.parent@,
                depth == self.depth@,
                n == self.count(),
                a < n,
                b < n,
                level <= self.up@.len(),
                x < n,
                1 <= goal <= depth[a as int],
                left < goal,
                x == steps_up(parent, a as int, (goal - 1 - left) as nat),
                forall|k: nat| k < goal ==> !self.above(#[trigger] steps_up(parent, a as int, k), b as int),
                forall|k: nat| k >= goal ==> self.above(#[trigger] steps_up(parent, a as int, k), b as int),
                left < power_of_two(level as nat),
            decreases level,
        {
            level = level - 1;
            let next: usize = self.up[level][x];
            proof {
                let jump = power_of_two(level as nat);
                lemma_steps_split(parent, a as int, (goal - 1 - left) as nat, jump);
                lemma_steps_depth(parent, root, depth, x as int, jump);
                assert(next == steps_up(parent, a as int, (goal - 1 - left + jump) as nat));
            }
            if !self.dominates(Ghost(root), next, b) {
                x = next;
                proof {
                    left = (left - power_of_two(level as nat)) as nat;
                }
            }
        }
        let c: usize = self.parent[x];
        proof {
            assert(left == 0);
            assert(x == steps_up(parent, a as int, (goal - 1) as nat));
            lemma_steps_split(parent, a as int, (goal - 1) as nat, 1);
            assert(steps_up(parent, x as int, 1) == steps_up(parent, parent[x as int] as int, 0));
            assert(c == steps_up(parent, a as int, goal));
            lemma_steps_depth(parent, root, depth, a as int, goal);
            lemma_steps_depth(parent, root, depth, a as int, (goal - 1) as nat);
            assert forall|y: int| #[trigger] self.above(y, a as int) && self.above(y, b as int) implies self.above(
                y,
                c as int,
            ) by {
                lemma_above_depth(parent, root, depth, y, a as int);
                if depth[y] <= depth[c as int] {
                    lemma_above_ordered(parent, root, depth, y, c as int, a as int);
                } else {
                    lemma_above_ordered(parent, root, depth, x as int, y, a as int);
                    lemma_above_transitive(parent, depth, x as int, y, b as int);
                }
            }
        }
        c
    }
}

/// How many steps above `a` the first node is that is above `b` too.
proof fn lemma_first_above(parent: Seq<usize>, root: int, depth: Seq<usize>, a: int, b: int) -> (goal:
    nat)
    requires
        is_tree(parent, root, depth),
        0 <= a < parent.len(),
        0 <= b < parent.len(),
        !is_above(parent, depth, a, b),
    ensures
        1 <= goal <= depth[a],
        forall|k: nat| k < goal ==> !is_above(parent, depth, #[trigger] steps_up(parent, a, k), b),
        forall|k: nat| k >= goal ==> is_above(parent, depth, #[trigger] steps_up(parent, a, k), b),
    decreases depth[a],
{
    lemma_root_above(parent, root, depth, b);
    assert(a != root);
    let p = parent[a] as int;
    if is_above(parent, depth, p, b) {
        assert forall|k: nat| k >= 1 implies is_above(parent, depth, #[trigger] steps_up(parent, a, k), b) by {
            lemma_steps_depth(parent, root, depth, p, (k - 1) as nat);
            lemma_above_transitive(parent, depth, steps_up(parent, a, k), p, b);
        }
        1
    } else {
        let rest = lemma_first_above(parent, root, depth, p, b);
        assert forall|k: nat| k < rest + 1 implies !is_above(parent, depth, #[trigger] steps_up(parent, a, k), b) by {
            if k > 0 {
                assert(steps_up(parent, a, k) == steps_up(parent, p, (k - 1) as nat));
            }
        }
        assert forall|k: nat| k >= rest + 1 implies is_above(parent, depth, #[trigger] steps_up(parent, a, k), b) by {
            assert(steps_up(parent, a, k) == steps_up(parent, p, (k - 1) as nat));
        }
        rest + 1
    }
}

/// A node cannot be deeper than there are nodes.
pub proof fn lemma_depth_bound(parent: Seq<usize>, root: int, depth: Seq<usize>, v: int)
    requires
        is_tree(parent, root, depth),
        0 <= v < parent.len(),
    ensures
        depth[v] < parent.len(),
{
    let chain = Seq::new((depth[v] + 1) as nat, |k: int| steps_up(parent, v, k as nat));
    assert forall|i: int, j: int|
        0 <= i < chain.len() && 0 <= j < chain.len() && i != j implies chain[i] != chain[j] by {
        lemma_steps_depth(parent, root, depth, v, i as nat);
        lemma_steps_depth(parent, root, depth, v, j as nat);
    }
    assert forall|i: int| 0 <= i < chain.len() implies 0 <= #[trigger] chain[i] < parent.len() by {
        lemma_steps_depth(parent, root, depth, v, i as nat);
    }
    lemma_distinct_in_range(chain, 0, parent.len() as int);
}

fn filled<T: Copy>(n: usize, value: T) -> (list: Vec<T>)
    ensures
        list@.len() == n,
        forall|i: int| 0 <= i < n ==> #[trigger] list@[i] == value,
{
    let mut list: Vec<T> = Vec::new();
    for i in 0..n
        invariant
            list@.len() == i,
            forall|j: int| 0 <= j < i ==> #[trigger] list@[j] == value,
    {
        list.push(value);
    }
    list
}

/// The places of all nodes in a walk over the tree that follows the heavy children first.
fn walk_tree(
    Ghost(parent): Ghost<Seq<usize>>,
    Ghost(depth): Ghost<Seq<usize>>,
    n: usize,
    root: usize,
    children: &Vec<Vec<usize>>,
    heavy: &Vec<Option<usize>>,
) -> (tables: Tables)
    requires
        n == parent.len(),
        is_tree(parent, root as int, depth),
        lists_all_children(parent, root as int, children@),
        heavy@.len() == n,
        forall|p: int|
            0 <= p < n && (#[trigger] heavy@[p]) is Some ==> children@[p]@.contains(heavy@[p]->0),
    ensures
        tables.wf(n as int),
        tables.cursor == n,
        tables.head@[root as int] == root,
        forall|x: int| 0 <= x < n ==> #[trigger] tables.entered(parent, depth, x),
        forall|x: int| 0 <= x < n && x != root ==> #[trigger] tables.on_path(parent, heavy@, x),
        forall|x: int| 0 <= x < n ==> #[trigger] tables.in_order(parent, root as int, heavy@, x),
{
    let mut tables = Tables {
        tin: filled(n, 0),
        tout: filled(n, 0),
        head: filled(n, 0),
        at_pos: filled(n, 0),
        cursor: 0,
    };
    tables.decompose(
        Ghost(parent),
        Ghost(root as int),
        Ghost(depth),
        children,
        heavy,
        root,
        root,
    );
    proof {
        assert forall|x: int| 0 <= x < n implies is_above(parent, depth, root as int, x) by {
            lemma_root_above(parent, root as int, depth, x);
        }
        assert forall|x: int| 0 <= x < n implies #[trigger] tables.entered(parent, depth, x) by {
            lemma_root_above(parent, root as int, depth, x);
        }
        assert forall|x: int| 0 <= x < n && x != root implies #[trigger] tables.on_path(
            parent,
            heavy@,
            x,
        ) by {
            lemma_root_above(parent, root as int, depth, x);
        }
        assert forall|x: int| 0 <= x < n implies #[trigger] tables.in_order(
            parent,
            root as int,
            heavy@,
            x,
        ) by {
            lemma_root_above(parent, root as int, depth, x);
        }
        let places = Seq::new(n as nat, |x: int| tables.tin@[x] as int);
        assert forall|i: int, j: int| 0 <= i < n && 0 <= j < n && i != j implies places[i] != places[j] by {
            assert(tables.entered(parent, depth, i));
            assert(tables.entered(parent, depth, j));
        }
        assert forall|i: int| 0 <= i < n implies 0 <= #[trigger] places[i] < tables.cursor by {
            assert(tables.entered(parent, depth, i));
        }
        lemma_distinct_in_range(places, 0, tables.cursor as int);
    }
    tables
}

/// Builds the index of a tree. `order` lists the nodes so that parents come first.
#[verifier::rlimit(60)]
#[verifier::spinoff_prover]
pub fn build_tree_index(parent: Vec<usize>, root: usize, order: &Vec<usize>) -> (index: TreeIndex)
    requires
        root < parent@.len(),
        parent@[root as int] == root,
        order@.len() == parent@.len(),
        order@[0] == root,
        order@.no_duplicates(),
        forall|v: int| 0 <= v < parent@.len() ==> order@.contains(#[trigger] (v as usize)),
        forall|i: int|
            #![trigger order@[i]]
            1 <= i < order@.len() ==> order@[i] < parent@.len() && exists|j: int|
                0 <= j < i && order@[j] == parent@[order@[i] as int],
        parent@.len() < usize::MAX / 8,
    ensures
        index.wf(root as int),
        index.parent@ == parent@,
        index.follows_the_largest(root as int),
        index.up@.len() > 1 ==> power_of_two((index.up@.len() - 1) as nat) <= parent@.len(),
{
    let n: usize = parent.len();
    let mut depth: Vec<usize> = filled(n, 0);
    for i in 1..n
        invariant
            n == parent@.len(),
            depth@.len() == n,
            order@.len() == n,
            root < n,
            order@[0] == root,
            order@.no_duplicates(),
            parent@[root as int] == root,
            depth@[root as int] == 0,
            forall|i: int|
                #![trigger order@[i]]
                1 <= i < order@.len() ==> order@[i] < parent@.len() && exists|j: int|
                    0 <= j < i && order@[j] == parent@[order@[i] as int],
            forall|k: int|
                #![trigger order@[k]]
                0 <= k < i ==> depth@[order@[k] as int] <= k,
            forall|k: int|
                #![trigger order@[k]]
                1 <= k < i ==> parent@[order@[k] as int] < n && depth@[order@[k] as int] == depth@[parent@[order@[k] as int] as int] + 1,
    {
        let v: usize = order[i];
        let ghost j = choose|j: int| 0 <= j < i && order@[j] == parent@[v as int];
        let ghost before = depth@;
        proof {
            assert(order@[j] == parent@[v as int]);
            assert(order@[j] < n) by {
                if j == 0 {
                    assert(order@[0] == root);
                }
            }
            assert(depth@[order@[j] as int] <= j);
        }
        let d: usize = depth[parent[v]] + 1;
        depth.set(v, d);
        proof {
            assert forall|k: int| #![trigger order@[k]] 0 <= k < i + 1 implies depth@[order@[k] as int] <= k && (k >= 1 ==> parent@[order@[k] as int] < n && depth@[order@[k] as int] == depth@[parent@[order@[k] as int] as int] + 1) by {
                if k < i {
                    assert(order@[k] != order@[i as int]);
                    if k >= 1 {
                        let l = choose|l: int| 0 <= l < k && order@[l] == parent@[order@[k] as int];
                        assert(order@[l] == parent@[order@[k] as int]);
                        assert(order@[l] != order@[i as int]);
                    }
                } else {
                    assert(order@[j] != order@[i as int]);
                }
            }
        }
    }
    proof {
        assert forall|v: int|
            #![trigger parent@[v]]
            #![trigger depth@[v]]
            0 <= v < n && v != root implies parent@[v] < n && depth@[v] == depth@[parent@[v] as int] + 1 by {
            assert(order@.contains(v as usize));
            let k = order@.index_of(v as usize);
            assert(order@[k] == v);
        }
        assert(is_tree(parent@, root as int, depth@));
    }
    let mut children: Vec<Vec<usize>> = Vec::new();
    for v in 0..n
        invariant
            children@.len() == v,
            forall|p: int| 0 <= p < v ==> (#[trigger] children@[p])@.len() == 0,
    {
        children.push(Vec::new());
    }
    for v in 0..n
        invariant
            n == parent@.len(),
            is_tree(parent@, root as int, depth@),
            children@.len() == n,
            forall|p: int| 0 <= p < n ==> is_increasing((#[trigger] children@[p])@),
            forall|p: int, c: usize|
                0 <= p < n ==> (#[trigger] children@[p]@.contains(c) <==> c < v && c != root
                    && parent@[c as int] == p),
    {
        if v != root {
            let p: usize = parent[v];
            let ghost before = children@;
            children[p].push(v);
            proof {
                let list = before[p as int]@;
                assert(children@[p as int]@ == list.push(v));
                assert(!list.contains(v));
                assert forall|q: int, c: usize| 0 <= q < n implies (#[trigger] children@[q]@.contains(c) <==> c < v + 1 && c != root
                    && parent@[c as int] == q) by {
                    assert(before[q]@.contains(c) <==> c < v && c != root && parent@[c as int] == q);
                    if q == p {
                        if list.contains(c) {
                            assert(children@[q]@[list.index_of(c)] == c);
                        }
                        if c == v {
                            assert(children@[q]@[list.len() as int] == c);
                        }
                        if children@[q]@.contains(c) && c != v {
                            assert(list[children@[q]@.index_of(c)] == c);
                        }
                    }
                }
                assert forall|q: int| 0 <= q < n implies is_increasing((#[trigger] children@[q])@) by {
                    assert(is_increasing(before[q]@));
                    if q == p {
                        assert forall|i: int, j: int|
                            0 <= i < j < list.push(v).len() implies #[trigger] list.push(v)[i]
                            < #[trigger] list.push(v)[j] by {
                            if j == list.len() {
                                assert(list.contains(list[i]));
                            }
                        }
                    }
                }
            }
        }
    }
    let no_heavy: Vec<Option<usize>> = filled(n, None);
    let first = walk_tree(Ghost(parent@), Ghost(depth@), n, root, &children, &no_heavy);
    let mut heavy: Vec<Option<usize>> = Vec::new();
    for v in 0..n
        invariant
            n == parent@.len(),
            lists_all_children(parent@, root as int, children@),
            first.wf(n as int),
            forall|x: int| 0 <= x < n ==> #[trigger] first.entered(parent@, depth@, x),
            heavy@.len() == v,
            forall|p: int|
                0 <= p < v && (#[trigger] heavy@[p]) is Some ==> children@[p]@.contains(heavy@[p]->0),
            forall|p: int| 0 <= p < v ==> #[trigger] first.is_heavy(children@[p]@, heavy@[p]),
    {
        let list = &children[v];
        let mut best: Option<usize> = None;
        for j in 0..list.len()
            invariant
                n == parent@.len(),
                v < n,
                lists_all_children(parent@, root as int, children@),
                list@ == children@[v as int]@,
                first.wf(n as int),
                forall|x: int| 0 <= x < n ==> #[trigger] first.entered(parent@, depth@, x),
                best matches Some(b) ==> list@.contains(b),
                first.is_heavy(list@.take(j as int), best),
        {
            let c: usize = list[j];
            assert(children@[v as int]@.contains(c));
            assert(first.entered(parent@, depth@, c as int));
            let larger = match best {
                Some(b) => {
                    assert(children@[v as int]@.contains(b));
                    assert(first.entered(parent@, depth@, b as int));
                    first.tout[c] - first.tin[c] > first.tout[b] - first.tin[b]
                },
                None => true,
            };
            let ghost old_best = best;
            if larger {
                best = Some(c);
            }
            proof {
                let (some, more) = (list@.take(j as int), list@.take(j + 1));
                assert(more =~= some.push(c));
                assert(is_increasing(list@));
                assert forall|d: usize| #[trigger] more.contains(d) implies {
                    &&& best is Some
                    &&& d != best->0 ==> first.tout@[d as int] - first.tin@[d as int]
                        < first.tout@[best->0 as int] - first.tin@[best->0 as int] || (
                    first.tout@[d as int] - first.tin@[d as int] == first.tout@[best->0 as int]
                        - first.tin@[best->0 as int] && best->0 < d)
                } by {
                    if d != c {
                        assert(some[more.index_of(d)] == d);
                        assert(some.contains(d));
                    }
                    if let Some(b) = old_best {
                        assert(some.contains(b));
                        assert(list@[some.index_of(b)] < list@[j as int]);
                    }
                }
                if best == Some(c) {
                    assert(more[j as int] == c);
                } else {
                    assert(more[some.index_of(best->0)] == best->0);
                }
            }
        }
        assert(list@.take(list@.len() as int) =~= list@);
        heavy.push(best);
    }
    let tables = walk_tree(Ghost(parent@), Ghost(depth@), n, root, &children, &heavy);
    let mut size: Vec<usize> = Vec::new();
    for v in 0..n
        invariant
            n == parent@.len(),
            tables.wf(n as int),
            forall|x: int| 0 <= x < n ==> #[trigger] tables.entered(parent@, depth@, x),
            size@.len() == v,
            forall|x: int| 0 <= x < v ==> #[trigger] size@[x] == tables.tout@[x] - tables.tin@[x],
    {
        assert(tables.entered(parent@, depth@, v as int));
        size.push(tables.tout[v] - tables.tin[v]);
    }
    let mut base: Vec<usize> = Vec::new();
    for v in 0..n
        invariant
            n == parent@.len(),
            base@ == parent@.subrange(0, v as int),
    {
        base.push(parent[v]);
        assert(base@ =~= parent@.subrange(0, v + 1));
    }
    assert(base@ =~= parent@);
    let mut up: Vec<Vec<usize>> = vec![base];
    let mut reach: usize = 2;
    proof {
        assert forall|v: int| 0 <= v < n implies #[trigger] up@[0]@[v] == steps_up(parent@, v, power_of_two(0)) by {
            assert(steps_up(parent@, v, 1) == steps_up(parent@, parent@[v] as int, 0));
        }
        assert(power_of_two(1) == 2) by {
            assert(power_of_two(0) == 1);
        }
    }
    while reach <= n
        invariant
            n == parent@.len(),
            n < usize::MAX / 8,
            is_tree(parent@, root as int, depth@),
            up@.len() >= 1,
            reach == power_of_two(up@.len()),
            up@.len() > 1 ==> power_of_two((up@.len() - 1) as nat) <= n,
            2 <= reach <= 2 * n + 2,
            forall|k: int| 0 <= k < up@.len() ==> (#[trigger] up@[k])@.len() == n,
            forall|k: int, v: int|
                0 <= k < up@.len() && 0 <= v < n ==> #[trigger] up@[k]@[v] == steps_up(
                    parent@,
                    v,
                    power_of_two(k as nat),
                ),
        decreases 2 * n + 2 - reach,
    {
        let level: usize = up.len();
        let mut row: Vec<usize> = Vec::new();
        for v in 0..n
            invariant
                n == parent@.len(),
                is_tree(parent@, root as int, depth@),
                level >= 1,
                up@.len() == level,
                forall|k: int| 0 <= k < up@.len() ==> (#[trigger] up@[k])@.len() == n,
                forall|k: int, v: int|
                    0 <= k < up@.len() && 0 <= v < n ==> #[trigger] up@[k]@[v] == steps_up(
                        parent@,
                        v,
                        power_of_two(k as nat),
                    ),
                row@.len() == v,
                forall|x: int| 0 <= x < v ==> #[trigger] row@[x] == steps_up(parent@, x, power_of_two(level as nat)),
        {
            proof {
                let half = power_of_two((level - 1) as nat);
                lemma_steps_depth(parent@, root as int, depth@, v as int, half);
                lemma_steps_split(parent@, v as int, half, half);
                assert(up@[level - 1]@[v as int] == steps_up(parent@, v as int, half));
                let mid = steps_up(parent@, v as int, half);
                assert(up@[level - 1]@[mid] == steps_up(parent@, mid, half));
            }
            let mid: usize = up[level - 1][v];
            row.push(up[level - 1][mid]);
        }
        up.push(row);
        reach = reach * 2;
    }
    let index = TreeIndex {
        parent,
        depth,
        tin: tables.tin,
        tout: tables.tout,
        size,
        head: tables.head,
        at_pos: tables.at_pos,
        up,
    };
    proof {
        assert forall|v: int|
            #![trigger index.tin@[v]]
            #![trigger index.tout@[v]]
            0 <= v < n implies index.tin@[v] < index.tout@[v] <= n && index.at_pos@[index.tin@[v] as int] == v by {
            assert(tables.entered(parent@, depth@, v));
        }
        assert forall|a: int, b: int| 0 <= a < n && 0 <= b < n implies (#[trigger] index.above(a, b) <==> index.tin@[a]
            <= index.tin@[b] < index.tout@[a]) by {
            assert(tables.entered(parent@, depth@, a));
            assert(tables.entered(parent@, depth@, b));
            if index.tin@[a] <= index.tin@[b] < index.tout@[a] {
                assert(is_above(parent@, depth@, a, tables.at_pos@[tables.tin@[b] as int] as int));
            }
        }
        assert forall|v: int| 0 <= v < n implies #[trigger] index.on_path(root as int, v) by {
            lemma_head_bound(&tables, parent@, root as int, depth@, heavy@, v);
            if v != root {
                assert(tables.on_path(parent@, heavy@, v));
            }
        }
        assert forall|c: int| 0 <= c < n && c != root implies (#[trigger] index.is_heavy(
            root as int,
            c,
        ) <==> heavy@[parent@[c] as int] == Some(c as usize)) by {
            let up = parent@[c] as int;
            let list = children@[up]@;
            assert(list.contains(c as usize));
            assert(first.is_heavy(list, heavy@[up]));
            assert forall|d: int| 0 <= d < n implies #[trigger] index.size@[d] == first.tout@[d]
                - first.tin@[d] by {
                lemma_same_size(&first, &tables, parent@, depth@, d);
                lemma_same_size(&tables, &first, parent@, depth@, d);
            }
            let best = heavy@[up]->0;
            assert(list.contains(best));
            if best == c {
                assert forall|d: int|
                    #![trigger index.parent@[d]]
                    0 <= d < n && d != root && d != c && index.parent@[d] == index.parent@[c] implies index.size@[d]
                    < index.size@[c] || (index.size@[d] == index.size@[c] && c < d) by {
                    assert(list.contains(d as usize));
                }
            } else {
                assert(index.parent@[best as int] == index.parent@[c]);
                assert(index.size@[best as int] == first.tout@[best as int]
                    - first.tin@[best as int]);
                assert(index.size@[c] == first.tout@[c] - first.tin@[c]);
            }
        }
        assert forall|c: int|
            #![trigger index.head@[c]]
            0 <= c < n && c != root implies if index.is_heavy(root as int, c) {
            index.head@[c] == index.head@[index.parent@[c] as int] && index.tin@[c]
                == index.tin@[index.parent@[c] as int] + 1
        } else {
            index.head@[c] == c
        } by {
            assert(tables.on_path(parent@, heavy@, c));
        }
        assert forall|c: int, d: int|
            0 <= c < d < n && c != root && d != root && index.parent@[c] == index.parent@[d]
                && !index.is_heavy(root as int, c) && !index.is_heavy(root as int, d) implies #[trigger] index.tin@[c]
            < #[trigger] index.tin@[d] by {
            assert(tables.in_order(parent@, root as int, heavy@, parent@[c] as int));
        }
    }
    index
}

/// Two walks give a node intervals of the same length, for its descendants are the same.
proof fn lemma_same_size(a: &Tables, b: &Tables, parent: Seq<usize>, depth: Seq<usize>, v: int)
    requires
        a.wf(parent.len() as int),
        b.wf(parent.len() as int),
        0 <= v < parent.len(),
        forall|x: int| 0 <= x < parent.len() ==> #[trigger] a.entered(parent, depth, x),
        forall|x: int| 0 <= x < parent.len() ==> #[trigger] b.entered(parent, depth, x),
    ensures
        a.tout@[v] - a.tin@[v] <= b.tout@[v] - b.tin@[v],
{
    assert(a.entered(parent, depth, v) && b.entered(parent, depth, v));
    let (lo, hi) = (a.tin@[v] as int, a.tout@[v] as int);
    let places = Seq::new((hi - lo) as nat, |i: int| b.tin@[a.at_pos@[lo + i] as int] as int);
    assert forall|i: int| 0 <= i < places.len() implies b.tin@[v] <= #[trigger] places[i]
        < b.tout@[v] by {
        let x = a.at_pos@[lo + i] as int;
        assert(x < parent.len());
        assert(is_above(parent, depth, v, x));
    }
    assert forall|i: int, j: int|
        0 <= i < places.len() && 0 <= j < places.len() && i != j implies places[i] != places[j] by {
        let (x, y) = (a.at_pos@[lo + i] as int, a.at_pos@[lo + j] as int);
        assert(a.tin@[x] == lo + i && a.tin@[y] == lo + j);
        assert(b.entered(parent, depth, x) && b.entered(parent, depth, y));
    }
    lemma_distinct_in_range(places, b.tin@[v] as int, b.tout@[v] as int);
}

/// Path heads are nodes.
proof fn lemma_head_bound(
    tables: &Tables,
    parent: Seq<usize>,
    root: int,
    depth: Seq<usize>,
    heavy: Seq<Option<usize>>,
    v: int,
)
    requires
        is_tree(parent, root, depth),
        0 <= v < parent.len(),
        tables.head@[root] == root,
        forall|x: int|
            0 <= x < parent.len() && x != root ==> #[trigger] tables.on_path(parent, heavy, x),
    ensures
        tables.head@[v] < parent.len(),
    decreases depth[v],
{
    if v != root {
        assert(tables.on_path(parent, heavy, v));
        lemma_head_bound(tables, parent, root, depth, heavy, parent[v] as int);
    }
}

} // verus!
