//! Trees of nested sets of numbers.
use vstd::prelude::*;

verus! {

/// The numbers of `list` grow from left to right.
pub open spec fn is_increasing(list: Seq<usize>) -> bool {
    forall|i: int, j: int| 0 <= i < j < list.len() ==> #[trigger] list[i] < #[trigger] list[j]
}

/// Every number of `inner` is in `outer`.
pub open spec fn holds_all(outer: Seq<usize>, inner: Seq<usize>) -> bool {
    forall|i: int| 0 <= i < inner.len() ==> outer.contains(#[trigger] inner[i])
}

/// Some number is in both lists.
pub open spec fn overlaps(a: Seq<usize>, b: Seq<usize>) -> bool {
    exists|i: int| 0 <= i < a.len() && b.contains(#[trigger] a[i])
}

/// The lists are disjoint, or one holds all of the other.
pub open spec fn is_laminar(a: Seq<usize>, b: Seq<usize>) -> bool {
    !overlaps(a, b) || holds_all(a, b) || holds_all(b, a)
}

pub fn list_contains(list: &Vec<usize>, x: usize) -> (found: bool)
    ensures
        found == list@.contains(x),
{
    for i in 0..list.len()
        invariant
            forall|k: int| 0 <= k < i ==> #[trigger] list@[k] != x,
    {
        if list[i] == x {
            return true;
        }
    }
    false
}

pub fn list_holds_all(outer: &Vec<usize>, inner: &Vec<usize>) -> (b: bool)
    ensures
        b == holds_all(outer@, inner@),
{
    for i in 0..inner.len()
        invariant
            forall|k: int| 0 <= k < i ==> outer@.contains(#[trigger] inner@[k]),
    {
        if !list_contains(outer, inner[i]) {
            return false;
        }
    }
    true
}

pub fn lists_overlap(a: &Vec<usize>, b: &Vec<usize>) -> (r: bool)
    ensures
        r == overlaps(a@, b@),
{
    for i in 0..a.len()
        invariant
            forall|k: int| 0 <= k < i ==> !b@.contains(#[trigger] a@[k]),
    {
        if list_contains(b, a[i]) {
            return true;
        }
    }
    false
}

pub fn lists_laminar(a: &Vec<usize>, b: &Vec<usize>) -> (r: bool)
    ensures
        r == is_laminar(a@, b@),
{
    !lists_overlap(a, b) || list_holds_all(a, b) || list_holds_all(b, a)
}

/// `best` is the first of the smallest sets with a property among those from `lo` to `hi`.
pub open spec fn first_smallest(
    sets: Seq<Vec<usize>>,
    fits: spec_fn(int) -> bool,
    lo: int,
    hi: int,
    best: int,
) -> bool {
    &&& lo <= best < hi
    &&& fits(best)
    &&& forall|k: int|
        lo <= k < hi && #[trigger] fits(k) ==> sets[best]@.len() <= sets[k]@.len() && (k < best
            ==> sets[best]@.len() < sets[k]@.len())
}

/// The sets that hold all of `inner`.
pub open spec fn holders(sets: Seq<Vec<usize>>, inner: Seq<usize>) -> spec_fn(int) -> bool {
    |k: int| holds_all(sets[k]@, inner)
}

/// The sets in which `x` is.
pub open spec fn hosts(sets: Seq<Vec<usize>>, x: usize) -> spec_fn(int) -> bool {
    |k: int| sets[k]@.contains(x)
}

/// The first of the smallest of the first `hi` sets that hold all of `inner`.
pub fn smallest_holder(sets: &Vec<Vec<usize>>, hi: usize, inner: &Vec<usize>) -> (best: Option<usize>)
    requires
        hi <= sets@.len(),
    ensures
        match best {
            Some(best) => first_smallest(sets@, holders(sets@, inner@), 0, hi as int, best as int),
            None => forall|k: int| 0 <= k < hi ==> !#[trigger] holders(sets@, inner@)(k),
        },
{
    let ghost fits = holders(sets@, inner@);
    let mut best: Option<usize> = None;
    for k in 0..hi
        invariant
            hi <= sets@.len(),
            fits == holders(sets@, inner@),
            match best {
                Some(best) => first_smallest(sets@, fits, 0, k as int, best as int),
                None => forall|i: int| 0 <= i < k ==> !#[trigger] fits(i),
            },
    {
        if list_holds_all(&sets[k], inner) {
            assert(fits(k as int));
            match best {
                Some(b) => {
                    if sets[k].len() < sets[b].len() {
                        best = Some(k);
                    }
                },
                None => {
                    best = Some(k);
                },
            }
        }
    }
    best
}

/// The first of the smallest sets from `lo` on in which `x` is.
pub fn smallest_host(sets: &Vec<Vec<usize>>, lo: usize, x: usize) -> (best: Option<usize>)
    requires
        lo <= sets@.len(),
    ensures
        match best {
            Some(best) => first_smallest(
                sets@,
                hosts(sets@, x),
                lo as int,
                sets@.len() as int,
                best as int,
            ),
            None => forall|k: int| lo <= k < sets@.len() ==> !#[trigger] hosts(sets@, x)(k),
        },
{
    let ghost fits = hosts(sets@, x);
    let mut best: Option<usize> = None;
    for k in lo..sets.len()
        invariant
            lo <= sets@.len(),
            fits == hosts(sets@, x),
            match best {
                Some(best) => first_smallest(sets@, fits, lo as int, k as int, best as int),
                None => forall|i: int| lo <= i < k ==> !#[trigger] fits(i),
            },
    {
        if list_contains(&sets[k], x) {
            assert(fits(k as int));
            match best {
                Some(b) => {
                    if sets[k].len() < sets[b].len() {
                        best = Some(k);
                    }
                },
                None => {
                    best = Some(k);
                },
            }
        }
    }
    best
}

/// Region `owner` is where `x` belongs: the smallest region from `lo` on that holds it,
/// and the outermost one if none does.
pub open spec fn owns(sets: Seq<Vec<usize>>, lo: int, x: usize, owner: int) -> bool {
    if exists|k: int| lo <= k < sets.len() && #[trigger] hosts(sets, x)(k) {
        first_smallest(sets, hosts(sets, x), lo, sets.len() as int, owner)
    } else {
        owner == 0
    }
}

/// No two regions own the same number.
pub proof fn lemma_owner_unique(sets: Seq<Vec<usize>>, lo: int, x: usize, a: int, b: int)
    requires
        owns(sets, lo, x, a),
        owns(sets, lo, x, b),
    ensures
        a == b,
{
    if exists|k: int| lo <= k < sets.len() && #[trigger] hosts(sets, x)(k) {
        assert(hosts(sets, x)(a));
        assert(hosts(sets, x)(b));
    }
}

/// `owned` lists, for each region, the numbers below `count` that belong to it, increasing.
pub open spec fn is_ownership(
    sets: Seq<Vec<usize>>,
    lo: int,
    count: int,
    owned: Seq<Vec<usize>>,
) -> bool {
    &&& owned.len() == sets.len()
    &&& forall|r: int| 0 <= r < owned.len() ==> is_increasing((#[trigger] owned[r])@)
    &&& forall|r: int, x: usize|
        0 <= r < owned.len() ==> (#[trigger] owned[r]@.contains(x) <==> x < count && owns(
            sets,
            lo,
            x,
            r,
        ))
}

/// Gives each number below `count` to the smallest region that holds it.
pub fn assign_owners(sets: &Vec<Vec<usize>>, lo: usize, count: usize) -> (owned: Vec<Vec<usize>>)
    requires
        0 < sets@.len(),
        lo <= sets@.len(),
    ensures
        is_ownership(sets@, lo as int, count as int, owned@),
{
    let mut owned: Vec<Vec<usize>> = Vec::new();
    for r in 0..sets.len()
        invariant
            owned@.len() == r,
            forall|i: int| 0 <= i < r ==> (#[trigger] owned@[i])@.len() == 0,
    {
        owned.push(Vec::new());
    }
    for x in 0..count
        invariant
            0 < sets@.len(),
            lo <= sets@.len(),
            owned@.len() == sets@.len(),
            is_ownership(sets@, lo as int, x as int, owned@),
    {
        let owner: usize = match smallest_host(sets, lo, x) {
            Some(owner) => owner,
            None => 0,
        };
        let ghost before = owned@;
        proof {
            if exists|k: int| lo <= k < sets@.len() && #[trigger] hosts(sets@, x)(k) {
                assert(first_smallest(
                    sets@,
                    hosts(sets@, x),
                    lo as int,
                    sets@.len() as int,
                    owner as int,
                ));
            } else {
                if owner != 0 {
                    assert(hosts(sets@, x)(owner as int));
                }
            }
            assert(owns(sets@, lo as int, x, owner as int)) by {
                if exists|k: int| lo <= k < sets@.len() && #[trigger] hosts(sets@, x)(k) {
                } else {
                    if hosts(sets@, x)(owner as int) && lo <= owner {
                        assert(false);
                    }
                }
            }
        }
        owned[owner].push(x);
        proof {
            let list = before[owner as int]@;
            assert(owned@[owner as int]@ == list.push(x));
            assert forall|i: int| 0 <= i < list.len() implies #[trigger] list[i] < x by {
                assert(before[owner as int]@.contains(list[i]));
            }
            assert forall|r: int| 0 <= r < owned@.len() implies is_increasing(
                (#[trigger] owned@[r])@,
            ) by {
                assert(is_increasing(before[r]@));
            }
            assert forall|r: int, y: usize| 0 <= r < owned@.len() implies (
            #[trigger] owned@[r]@.contains(y) <==> y < x + 1 && owns(sets@, lo as int, y, r)) by {
                assert(before[r]@.contains(y) <==> y < x && owns(sets@, lo as int, y, r));
                if y == x && owns(sets@, lo as int, y, r) {
                    lemma_owner_unique(sets@, lo as int, x, r, owner as int);
                    assert(owned@[r]@[list.len() as int] == x);
                }
                if before[r]@.contains(y) {
                    assert(owned@[r]@[before[r]@.index_of(y)] == y);
                }
                if owned@[r]@.contains(y) && y != x {
                    let k = owned@[r]@.index_of(y);
                    assert(before[r]@[k] == y);
                }
                if owned@[r]@.contains(y) && y == x && r != owner {
                    assert(before[r]@.contains(y));
                }
            }
        }
    }
    owned
}

/// `parent[i]` is, for each region but the outermost, the smallest earlier region that
/// holds it, and `children` lists the regions by their parents.
pub open spec fn is_nesting(
    sets: Seq<Vec<usize>>,
    parent: Seq<usize>,
    children: Seq<Vec<usize>>,
) -> bool {
    &&& parent.len() == sets.len()
    &&& children.len() == sets.len()
    &&& forall|i: int|
        1 <= i < sets.len() ==> first_smallest(
            sets,
            holders(sets, sets[i]@),
            0,
            i,
            #[trigger] parent[i] as int,
        )
    &&& lists_children(parent, children, sets.len() as int)
}

/// `children[p]` lists the regions below `top` whose parent is `p`, increasing.
pub open spec fn lists_children(parent: Seq<usize>, children: Seq<Vec<usize>>, top: int) -> bool {
    &&& forall|p: int| 0 <= p < children.len() ==> is_increasing((#[trigger] children[p])@)
    &&& forall|p: int, i: usize|
        0 <= p < children.len() ==> (#[trigger] children[p]@.contains(i) <==> 1 <= i < top
            && parent[i as int] == p)
}

pub(crate) proof fn lemma_push_child(
    parent: Seq<usize>,
    before: Seq<Vec<usize>>,
    after: Seq<Vec<usize>>,
    p: int,
    i: usize,
)
    requires
        0 <= p < before.len(),
        1 <= i < parent.len(),
        parent[i as int] == p,
        lists_children(parent, before, i as int),
        after.len() == before.len(),
        forall|k: int| 0 <= k < before.len() && k != p ==> after[k] == before[k],
        after[p]@ == before[p]@.push(i),
    ensures
        lists_children(parent, after, i + 1),
{
    let list = before[p]@;
    assert forall|k: int| 0 <= k < list.len() implies #[trigger] list[k] < i by {
        assert(before[p]@.contains(list[k]));
    }
    assert forall|q: int| 0 <= q < after.len() implies is_increasing((#[trigger] after[q])@) by {
        assert(is_increasing(before[q]@));
    }
    assert forall|q: int, j: usize| 0 <= q < after.len() implies (#[trigger] after[q]@.contains(j)
        <==> 1 <= j < i + 1 && parent[j as int] == q) by {
        assert(before[q]@.contains(j) <==> 1 <= j < i && parent[j as int] == q);
        if q == p {
            if list.contains(j) {
                assert(after[q]@[list.index_of(j)] == j);
            }
            if j == i {
                assert(after[q]@[list.len() as int] == i);
            }
            if after[q]@.contains(j) && j != i {
                assert(list[after[q]@.index_of(j)] == j);
            }
        } else {
            assert(after[q] == before[q]);
        }
    }
}

/// Nests the sets, of which the first holds all others.
pub fn nest(sets: &Vec<Vec<usize>>) -> (nesting: (Vec<usize>, Vec<Vec<usize>>))
    requires
        sets@.len() > 0,
        forall|i: int| 0 <= i < sets@.len() ==> holds_all(sets@[0]@, (#[trigger] sets@[i])@),
    ensures
        is_nesting(sets@, nesting.0@, nesting.1@),
{
    let mut parent: Vec<usize> = Vec::new();
    let mut children: Vec<Vec<usize>> = Vec::new();
    for r in 0..sets.len()
        invariant
            parent@.len() == r,
            children@.len() == r,
            forall|i: int| 0 <= i < r ==> (#[trigger] children@[i])@.len() == 0,
    {
        parent.push(0);
        children.push(Vec::new());
    }
    for i in 1..sets.len()
        invariant
            sets@.len() > 0,
            forall|i: int| 0 <= i < sets@.len() ==> holds_all(sets@[0]@, (#[trigger] sets@[i])@),
            parent@.len() == sets@.len(),
            children@.len() == sets@.len(),
            forall|k: int|
                1 <= k < i ==> first_smallest(
                    sets@,
                    holders(sets@, sets@[k]@),
                    0,
                    k,
                    #[trigger] parent@[k] as int,
                ),
            lists_children(parent@, children@, i as int),
    {
        let p: usize = match smallest_holder(sets, i, &sets[i]) {
            Some(p) => p,
            None => {
                assert(holds_all(sets@[0]@, sets@[i as int]@));
                assert(holders(sets@, sets@[i as int]@)(0));
                0
            },
        };
        let ghost before = children@;
        let ghost parent0 = parent@;
        parent.set(i, p);
        children[p].push(i);
        proof {
            assert(lists_children(parent@, before, i as int)) by {
                assert forall|q: int, j: usize| 0 <= q < before.len() implies (
                #[trigger] before[q]@.contains(j) <==> 1 <= j < i && parent@[j as int] == q) by {
                    assert(before[q]@.contains(j) <==> 1 <= j < i && parent0[j as int] == q);
                }
            }
            lemma_push_child(parent@, before, children@, p as int, i);
        }
    }
    (parent, children)
}

} // verus!
