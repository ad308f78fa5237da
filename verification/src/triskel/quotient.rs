//! What a region looks like from inside: its own nodes, a proxy for each child region,
//! terminals where it is entered and left, and the links between all these.
use crate::graph::analysis::nesting::{is_increasing, list_contains};
use crate::graph::analysis::sese::{copy_list, ends_below, IEdge};
use crate::triskel::region_tree::{add_edge, bare_graph, is_below, is_flow_graph, is_within, FlowGraph, RegionTree};
use vstd::prelude::*;

verus! {

/// A named place on the boundary of a region: where it is entered, or where it is left
/// from one of its nodes.
#[derive(Clone, Copy, Debug, PartialEq, Eq, Structural)]
pub enum RegionPortId {
    Entry,
    Exit { source: usize },
}

/// A link between two entities of a region. A link that touches a proxy is bound to the
/// named port of that child region.
#[derive(Clone, Copy, Debug, PartialEq, Eq)]
pub struct Link {
    pub from: usize,
    pub to: usize,
    /// The edge that the link stands for; a link to a terminal stands for none.
    pub original: Option<usize>,
    /// The child region that the link leaves, and through which port.
    pub start: Option<(usize, RegionPortId)>,
    /// The child region that the link enters, and through which port.
    pub end: Option<(usize, RegionPortId)>,
}

/// The inside of a region. Entities are numbered: first its own nodes, then a proxy for
/// each child region, then the terminal of its entry, then those of its exits.
pub struct Quotient {
    pub count: usize,
    /// The entity that stands for each node.
    pub entity_of: Vec<Option<usize>>,
    pub direct: Vec<usize>,
    pub proxies: Vec<usize>,
    /// The nodes from which the region is left, ascending; without an entry there is none.
    pub exits: Vec<usize>,
    pub has_entry: bool,
    pub links: Vec<Link>,
    pub root: usize,
}

// Entities.

/// The place of the last of the first `k` child regions that holds `v`.
pub open spec fn child_with(tree: RegionTree, children: Seq<usize>, k: int, v: usize) -> Option<int>
    decreases k,
{
    if k <= 0 {
        None
    } else if tree.sets@[children[k - 1] as int]@.contains(v) {
        Some(k - 1)
    } else {
        child_with(tree, children, k - 1, v)
    }
}

/// The entity that stands for a node in region `r`: the proxy of the child region that
/// holds it, or else its own.
pub open spec fn entity(tree: RegionTree, r: int, v: usize) -> Option<int> {
    let owned = tree.owned@[r]@;
    let children = tree.children@[r]@;
    match child_with(tree, children, children.len() as int, v) {
        Some(k) => Some(owned.len() + k),
        None => if owned.contains(v) {
            Some(owned.index_of(v))
        } else {
            None
        },
    }
}

/// Every node of region `r` has an entity.
pub open spec fn is_covered(tree: RegionTree, r: int) -> bool {
    forall|i: int|
        0 <= i < tree.sets@[r]@.len() ==> entity(tree, r, #[trigger] tree.sets@[r]@[i]) is Some
}

/// The child region whose proxy an entity is.
pub open spec fn child_of(tree: RegionTree, r: int, entity: int) -> Option<usize> {
    let d = tree.owned@[r]@.len();
    if d <= entity < d + tree.children@[r]@.len() {
        Some(tree.children@[r]@[entity - d])
    } else {
        None
    }
}

/// Lists are in range.
pub open spec fn has_children(tree: RegionTree, r: int) -> bool {
    &&& 0 <= r < tree.sets@.len()
    &&& is_below(tree.children@[r]@, tree.sets@.len() as int)
    &&& tree.owned@[r]@.no_duplicates()
    &&& tree.owned@[r]@.len() + tree.children@[r]@.len() + tree.sets@[r]@.len() + 2 <= usize::MAX
}

/// The entities of all nodes.
fn entities(tree: &RegionTree, r: usize, n: usize, Ghost(m): Ghost<int>) -> (list: Vec<Option<usize>>)
    requires
        is_within(*tree, n as int, m),
        has_children(*tree, r as int),
    ensures
        list@.len() == n,
        forall|v: int|
            0 <= v < n ==> (#[trigger] list@[v] matches Some(e) ==> entity(*tree, r as int, v as usize)
                == Some(e as int)) && (list@[v] is None ==> entity(*tree, r as int, v as usize)
                is None),
{
    let owned = &tree.owned[r];
    let children = &tree.children[r];
    let mut list: Vec<Option<usize>> = Vec::new();
    for v in 0..n
        invariant
            owned@ == tree.owned@[r as int]@,
            children@ == tree.children@[r as int]@,
            is_within(*tree, n as int, m),
            has_children(*tree, r as int),
            list@.len() == v,
            forall|w: int|
                0 <= w < v ==> (#[trigger] list@[w] matches Some(e) ==> entity(*tree, r as int, w as usize)
                    == Some(e as int)) && (list@[w] is None ==> entity(
                    *tree,
                    r as int,
                    w as usize,
                ) is None),
    {
        let mut found: Option<usize> = None;
        for i in 0..owned.len()
            invariant
                owned@.no_duplicates(),
                match found {
                    Some(e) => owned@.contains(v) && owned@.index_of(v) == e && e < owned@.len(),
                    None => !owned@.take(i as int).contains(v),
                },
        {
            if owned[i] == v {
                found = Some(i);
                assert(owned@[i as int] == v);
                assert(owned@.index_of(v) == i);
            }
            proof {
                if found is None && owned@.take(i + 1).contains(v) {
                    let k = owned@.take(i + 1).index_of(v);
                    if k < i {
                        assert(owned@.take(i as int)[k] == v);
                    }
                    assert(false);
                }
            }
        }
        assert(owned@.take(owned@.len() as int) =~= owned@);
        let ghost own = found;
        for k in 0..children.len()
            invariant
                owned@ == tree.owned@[r as int]@,
                children@ == tree.children@[r as int]@,
                has_children(*tree, r as int),
                found == match child_with(*tree, children@, k as int, v) {
                    Some(c) => Some((owned@.len() + c) as usize),
                    None => own,
                },
                child_with(*tree, children@, k as int, v) matches Some(c) ==> 0 <= c < k,
        {
            assert(children@[k as int] < tree.sets@.len());
            if list_contains(&tree.sets[children[k]], v) {
                found = Some(owned.len() + k);
            }
        }
        list.push(found);
    }
    list
}

// Exits.

/// An edge leaves the nodes of `inside` from `v`.
pub open spec fn is_exit_source(edges: Seq<IEdge>, inside: Seq<usize>, v: usize) -> bool {
    inside.contains(v) && exists|i: int|
        #![trigger edges[i]]
        0 <= i < edges.len() && edges[i].from == v && !inside.contains(edges[i].to)
}

/// The nodes from which edges leave, ascending.
fn exit_sources(n: usize, edges: &Vec<IEdge>, inside: &Vec<usize>) -> (list: Vec<usize>)
    requires
        is_below(inside@, n as int),
    ensures
        is_increasing(list@),
        forall|v: usize| #[trigger] list@.contains(v) <==> is_exit_source(edges@, inside@, v),
        is_below(list@, n as int),
{
    let mut list: Vec<usize> = Vec::new();
    for v in 0..n
        invariant
            is_increasing(list@),
            is_below(list@, v as int),
            forall|w: usize| #[trigger]
                list@.contains(w) <==> w < v && is_exit_source(edges@, inside@, w),
    {
        let mut leaves: bool = false;
        if list_contains(inside, v) {
            for i in 0..edges.len()
                invariant
                    leaves == exists|k: int|
                        #![trigger edges@[k]]
                        0 <= k < i && edges@[k].from == v && !inside@.contains(edges@[k].to),
            {
                if edges[i].from == v && !list_contains(inside, edges[i].to) {
                    leaves = true;
                }
            }
        }
        assert(leaves == is_exit_source(edges@, inside@, v));
        let ghost before = list@;
        if leaves {
            list.push(v);
        }
        proof {
            assert forall|w: usize| #[trigger] list@.contains(w) <==> w < v + 1 && is_exit_source(
                edges@,
                inside@,
                w,
            ) by {
                assert(before.contains(w) <==> w < v && is_exit_source(edges@, inside@, w));
                if before.contains(w) {
                    assert(list@[before.index_of(w)] == w);
                }
                if w == v && leaves {
                    assert(list@[before.len() as int] == w);
                }
                if list@.contains(w) && !before.contains(w) {
                    let k = list@.index_of(w);
                    if k < before.len() {
                        assert(before[k] == w);
                    }
                }
            }
        }
    }
    proof {
        assert forall|v: usize| #[trigger] list@.contains(v) <==> is_exit_source(
            edges@,
            inside@,
            v,
        ) by {
            if inside@.contains(v) {
                assert(inside@[inside@.index_of(v)] < n);
            }
        }
    }
    list
}

// Links.

/// The port of the child region through which a link from node `v` leaves it.
pub open spec fn start_port(tree: RegionTree, r: int, v: usize) -> Option<(usize, RegionPortId)> {
    match child_of(tree, r, entity(tree, r, v)->0) {
        Some(child) => Some((child, RegionPortId::Exit { source: v })),
        None => None,
    }
}

/// The port of the child region through which a link to node `v` enters it.
pub open spec fn end_port(tree: RegionTree, r: int, v: usize) -> Option<(usize, RegionPortId)> {
    match child_of(tree, r, entity(tree, r, v)->0) {
        Some(child) => Some((child, RegionPortId::Entry)),
        None => None,
    }
}

/// The link from the terminal of the entry to where edge `e` leads.
pub open spec fn entry_link(tree: RegionTree, r: int, edges: Seq<IEdge>, terminal: int, e: int) -> Link {
    Link {
        from: terminal as usize,
        to: entity(tree, r, edges[e].to)->0 as usize,
        original: None,
        start: None,
        end: end_port(tree, r, edges[e].to),
    }
}

/// The link from node `v` to a terminal.
pub open spec fn exit_link(tree: RegionTree, r: int, v: usize, terminal: int) -> Link {
    Link {
        from: entity(tree, r, v)->0 as usize,
        to: terminal as usize,
        original: None,
        start: start_port(tree, r, v),
        end: None,
    }
}

/// Edge `i` leads between two entities of region `r`.
pub open spec fn is_linking(tree: RegionTree, r: int, edges: Seq<IEdge>, i: int) -> bool {
    let inside = tree.sets@[r]@;
    &&& inside.contains(edges[i].from)
    &&& inside.contains(edges[i].to)
    &&& edges[i].from != edges[i].to
    &&& entity(tree, r, edges[i].from) != entity(tree, r, edges[i].to)
}

/// The links for those of the first `k` edges that lead between two entities.
pub open spec fn inner_links(tree: RegionTree, r: int, edges: Seq<IEdge>, k: int) -> Seq<Link>
    decreases k,
{
    if k <= 0 {
        Seq::empty()
    } else {
        let before = inner_links(tree, r, edges, k - 1);
        let edge = edges[k - 1];
        if is_linking(tree, r, edges, k - 1) {
            before.push(
                Link {
                    from: entity(tree, r, edge.from)->0 as usize,
                    to: entity(tree, r, edge.to)->0 as usize,
                    original: Some((k - 1) as usize),
                    start: start_port(tree, r, edge.from),
                    end: end_port(tree, r, edge.to),
                },
            )
        } else {
            before
        }
    }
}

/// The links to and from terminals.
pub open spec fn terminal_links(
    tree: RegionTree,
    r: int,
    edges: Seq<IEdge>,
    exits: Seq<usize>,
) -> Seq<Link> {
    let first = tree.owned@[r]@.len() + tree.children@[r]@.len();
    match tree.bounds@[r] {
        Some(b) => seq![entry_link(tree, r, edges, first as int, b.0 as int)] + Seq::new(
            exits.len(),
            |j: int| exit_link(tree, r, exits[j], first + 1 + j),
        ),
        None => Seq::empty(),
    }
}

/// `q` is the inside of region `r`.
pub open spec fn is_quotient(
    n: int,
    edges: Seq<IEdge>,
    tree: RegionTree,
    r: int,
    root: usize,
    q: Quotient,
) -> bool {
    let d = tree.owned@[r]@.len() + tree.children@[r]@.len();
    let entered = tree.bounds@[r] is Some;
    let entry_node = match tree.bounds@[r] {
        Some(b) => edges[b.0 as int].to,
        None => root,
    };
    &&& q.direct@ == tree.owned@[r]@
    &&& q.proxies@ == tree.children@[r]@
    &&& q.has_entry == entered
    &&& q.entity_of@.len() == n
    &&& forall|v: int|
        0 <= v < n ==> (#[trigger] q.entity_of@[v] matches Some(e) ==> entity(tree, r, v as usize)
            == Some(e as int)) && (q.entity_of@[v] is None ==> entity(tree, r, v as usize) is None)
    &&& is_increasing(q.exits@)
    &&& forall|v: usize| #[trigger]
        q.exits@.contains(v) <==> entered && is_exit_source(edges, tree.sets@[r]@, v)
    &&& q.count == d + if entered {
        1 + q.exits@.len()
    } else {
        0
    }
    &&& q.links@ == terminal_links(tree, r, edges, q.exits@) + inner_links(
        tree,
        r,
        edges,
        edges.len() as int,
    )
    &&& q.root == match entity(tree, r, entry_node) {
        Some(e) => e,
        None => 0,
    }
}

/// Where a link leaves, and where it enters.
fn ports(tree: &RegionTree, r: usize, n: usize, list: &Vec<Option<usize>>, v: usize, Ghost(m): Ghost<int>) -> (res: (
    usize,
    Option<(usize, RegionPortId)>,
    Option<(usize, RegionPortId)>,
))
    requires
        is_within(*tree, n as int, m),
        has_children(*tree, r as int),
        v < n,
        list@.len() == n,
        entity(*tree, r as int, v) is Some,
        forall|v: int|
            0 <= v < n ==> (#[trigger] list@[v] matches Some(e) ==> entity(*tree, r as int, v as usize)
                == Some(e as int)) && (list@[v] is None ==> entity(*tree, r as int, v as usize)
                is None),
    ensures
        Some(res.0 as int) == entity(*tree, r as int, v),
        res.1 == start_port(*tree, r as int, v),
        res.2 == end_port(*tree, r as int, v),
{
    assert(v as int as usize == v);
    assert(list@[v as int] is Some);
    let e: usize = list[v].unwrap();
    let d: usize = tree.owned[r].len();
    if d <= e && e - d < tree.children[r].len() {
        let child: usize = tree.children[r][e - d];
        (e, Some((child, RegionPortId::Exit { source: v })), Some((child, RegionPortId::Entry)))
    } else {
        (e, None, None)
    }
}

/// Looks inside a region of a flow graph of `n` nodes. The entry of the whole graph is
/// `root`.
#[verifier::rlimit(40)]
pub fn quotient(n: usize, edges: &Vec<IEdge>, tree: &RegionTree, r: usize, root: usize) -> (q: Quotient)
    requires
        ends_below(edges@, n as int),
        is_within(*tree, n as int, edges@.len() as int),
        has_children(*tree, r as int),
        is_covered(*tree, r as int),
        root < n,
        tree.bounds@[r as int] matches Some(b) ==> tree.sets@[r as int]@.contains(
            edges@[b.0 as int].to,
        ),
    ensures
        is_quotient(n as int, edges@, *tree, r as int, root, q),
{
    let ghost m = edges@.len() as int;
    let ghost at = r as int;
    let inside = &tree.sets[r];
    assert(is_below(inside@, n as int));
    let list = entities(tree, r, n, Ghost(m));
    let first: usize = tree.owned[r].len() + tree.children[r].len();
    let mut links: Vec<Link> = Vec::new();
    let mut exits: Vec<usize> = Vec::new();
    let mut entered: bool = false;
    let mut entry_node: usize = root;
    proof {
        assert forall|v: usize| inside@.contains(v) implies #[trigger] entity(*tree, at, v) is Some by {
            let k = inside@.index_of(v);
            assert(tree.sets@[at]@[k] == v);
        }
    }
    if let Some(b) = tree.bounds[r] {
        entered = true;
        proof {
            assert(r > 0);
            assert(tree.bounds@[at] matches Some(b) && b.0 < m);
        }
        entry_node = edges[b.0].to;
        let (e, _, end) = ports(tree, r, n, &list, entry_node, Ghost(m));
        links.push(Link { from: first, to: e, original: None, start: None, end });
        exits = exit_sources(n, edges, inside);
        proof {
            lemma_sources_inside(exits@, edges@, inside@);
        }
        let ghost goal = terminal_links(*tree, at, edges@, exits@);
        assert(links@ =~= goal.take(1));
        for j in 0..exits.len()
            invariant
                is_within(*tree, n as int, m),
                has_children(*tree, at),
                at == r,
                inside@ == tree.sets@[at]@,
                tree.bounds@[at] is Some,
                first == tree.owned@[at]@.len() + tree.children@[at]@.len(),
                exits@.len() <= inside@.len(),
                list@.len() == n,
                forall|v: int|
                    0 <= v < n ==> (#[trigger] list@[v] matches Some(e) ==> entity(*tree, at, v as usize)
                        == Some(e as int)) && (list@[v] is None ==> entity(*tree, at, v as usize)
                        is None),
                forall|v: usize| inside@.contains(v) ==> #[trigger] entity(*tree, at, v) is Some,
                forall|v: usize| #[trigger]
                    exits@.contains(v) <==> is_exit_source(edges@, inside@, v),
                is_below(exits@, n as int),
                goal == terminal_links(*tree, at, edges@, exits@),
                links@ == goal.take(j + 1),
        {
            assert(exits@.contains(exits@[j as int]));
            assert(exits@[j as int] < n);
            let (e, start, _) = ports(tree, r, n, &list, exits[j], Ghost(m));
            links.push(
                Link { from: e, to: first + 1 + j, original: None, start, end: None },
            );
            assert(links@ =~= goal.take(j + 2));
        }
        assert(goal.take(goal.len() as int) =~= goal);
    }
    let ghost outer = terminal_links(*tree, at, edges@, exits@);
    assert(links@ =~= outer);
    assert(outer + inner_links(*tree, at, edges@, 0) =~= outer);
    for i in 0..edges.len()
        invariant
            ends_below(edges@, n as int),
            m == edges@.len(),
            is_within(*tree, n as int, m),
            has_children(*tree, at),
            at == r,
            inside@ == tree.sets@[at]@,
            list@.len() == n,
            forall|v: int|
                0 <= v < n ==> (#[trigger] list@[v] matches Some(e) ==> entity(*tree, at, v as usize)
                    == Some(e as int)) && (list@[v] is None ==> entity(*tree, at, v as usize)
                    is None),
            forall|v: usize| inside@.contains(v) ==> #[trigger] entity(*tree, at, v) is Some,
            links@ == outer + inner_links(*tree, at, edges@, i as int),
    {
        let (from, to): (usize, usize) = (edges[i].from, edges[i].to);
        assert(edges@[i as int].from < n && edges@[i as int].to < n);
        if from != to && list_contains(inside, from) && list_contains(inside, to) {
            let (a, start, _) = ports(tree, r, n, &list, from, Ghost(m));
            let (b, _, end) = ports(tree, r, n, &list, to, Ghost(m));
            if a != b {
                links.push(Link { from: a, to: b, original: Some(i), start, end });
                assert(links@ =~= outer + inner_links(*tree, at, edges@, i + 1));
            }
        }
    }
    let mut count: usize = first;
    if entered {
        count = first + 1 + exits.len();
    }
    assert(edges@.len() > 0 ==> entry_node < n);
    let inner_root: usize = match list[entry_node] {
        Some(e) => e,
        None => 0,
    };
    assert(entry_node as int as usize == entry_node);
    Quotient {
        count,
        entity_of: list,
        direct: copy_list(&tree.owned[r]),
        proxies: copy_list(&tree.children[r]),
        exits,
        has_entry: entered,
        links,
        root: inner_root,
    }
}

/// Sources are distinct nodes inside.
proof fn lemma_sources_inside(exits: Seq<usize>, edges: Seq<IEdge>, inside: Seq<usize>)
    requires
        is_increasing(exits),
        forall|v: usize| #[trigger] exits.contains(v) <==> is_exit_source(edges, inside, v),
    ensures
        exits.len() <= inside.len(),
{
    assert(exits.no_duplicates()) by {
        assert forall|i: int, j: int| 0 <= i < exits.len() && 0 <= j < exits.len() && i != j implies exits[i]
            != exits[j] by {
            if i < j {
                assert(exits[i] < exits[j]);
            } else {
                assert(exits[j] < exits[i]);
            }
        }
    }
    exits.unique_seq_to_set();
    inside.lemma_cardinality_of_set();
    assert(exits.to_set().subset_of(inside.to_set())) by {
        assert forall|v: usize| exits.to_set().contains(v) implies inside.to_set().contains(v) by {
            assert(exits.contains(v));
        }
    }
    vstd::set_lib::lemma_len_subset(exits.to_set(), inside.to_set());
}

/// Whether every node of a region has an entity, and the region is entered at one of its
/// nodes.
pub fn can_be_composed(n: usize, edges: &Vec<IEdge>, tree: &RegionTree, r: usize) -> (b: bool)
    requires
        is_within(*tree, n as int, edges@.len() as int),
        has_children(*tree, r as int),
    ensures
        b == (is_covered(*tree, r as int) && (tree.bounds@[r as int] matches Some(b)
            ==> tree.sets@[r as int]@.contains(edges@[b.0 as int].to))),
{
    let ghost at = r as int;
    let list = entities(tree, r, n, Ghost(edges@.len() as int));
    let inside = &tree.sets[r];
    assert(is_below(inside@, n as int));
    if let Some(b) = tree.bounds[r] {
        proof {
            assert(r > 0);
            assert(tree.bounds@[at] matches Some(b) && b.0 < edges@.len());
        }
        if !list_contains(inside, edges[b.0].to) {
            return false;
        }
    }
    for i in 0..inside.len()
        invariant
            at == r,
            inside@ == tree.sets@[at]@,
            is_below(inside@, n as int),
            list@.len() == n,
            forall|v: int|
                0 <= v < n ==> (#[trigger] list@[v] matches Some(e) ==> entity(*tree, at, v as usize)
                    == Some(e as int)) && (list@[v] is None ==> entity(*tree, at, v as usize)
                    is None),
            forall|k: int|
                0 <= k < i ==> entity(*tree, at, #[trigger] tree.sets@[at]@[k]) is Some,
    {
        assert(inside@[i as int] < n);
        if list[inside[i]].is_none() {
            assert(entity(*tree, at, tree.sets@[at]@[i as int]) is None);
            return false;
        }
        assert(list@[inside@[i as int] as int] is Some);
    }
    true
}

/// Whether the lists of a region are in range.
fn lists_fit(tree: &RegionTree, r: usize, n: usize, Ghost(m): Ghost<int>) -> (b: bool)
    requires
        is_within(*tree, n as int, m),
        r < tree.sets@.len(),
    ensures
        b == has_children(*tree, r as int),
{
    let children = &tree.children[r];
    for i in 0..children.len()
        invariant
            r < tree.sets@.len(),
            children@ == tree.children@[r as int]@,
            is_below(children@.take(i as int), tree.sets@.len() as int),
    {
        if children[i] >= tree.sets.len() {
            assert(!is_below(children@, tree.sets@.len() as int)) by {
                assert(children@[i as int] >= tree.sets@.len());
            }
            return false;
        }
        assert(is_below(children@.take(i + 1), tree.sets@.len() as int)) by {
            assert forall|k: int| 0 <= k < i + 1 implies #[trigger] children@.take(i + 1)[k]
                < tree.sets@.len() by {
                if k < i {
                    assert(children@.take(i as int)[k] < tree.sets@.len());
                }
            }
        }
    }
    assert(children@.take(children@.len() as int) =~= children@);
    let owned = &tree.owned[r];
    for i in 0..owned.len()
        invariant
            r < tree.sets@.len(),
            owned@ == tree.owned@[r as int]@,
            forall|a: int, b: int| 0 <= a < b < i ==> #[trigger] owned@[a] != #[trigger] owned@[b],
    {
        for j in 0..i
            invariant
                i < owned@.len(),
                r < tree.sets@.len(),
                owned@ == tree.owned@[r as int]@,
                forall|a: int| 0 <= a < j ==> #[trigger] owned@[a] != owned@[i as int],
        {
            if owned[j] == owned[i] {
                assert(!owned@.no_duplicates());
                return false;
            }
        }
    }
    let inside: usize = tree.sets[r].len();
    match owned.len().checked_add(children.len()) {
        Some(sum) => match sum.checked_add(inside) {
            Some(all) => all <= usize::MAX - 2,
            None => false,
        },
        None => false,
    }
}

/// Looks inside a region, if every node of it belongs to it or to one of its children, and
/// it is entered at one of its nodes.
pub fn inspect_region(n: usize, edges: &Vec<IEdge>, tree: &RegionTree, r: usize, root: usize) -> (q: Option<
    Quotient,
>)
    requires
        ends_below(edges@, n as int),
        is_within(*tree, n as int, edges@.len() as int),
        r < tree.sets@.len(),
        root < n,
    ensures
        q is Some <==> has_children(*tree, r as int) && is_covered(*tree, r as int) && (
        tree.bounds@[r as int] matches Some(b) ==> tree.sets@[r as int]@.contains(
            edges@[b.0 as int].to,
        )),
        q matches Some(q) ==> is_quotient(n as int, edges@, *tree, r as int, root, q),
{
    if lists_fit(tree, r, n, Ghost(edges@.len() as int)) && can_be_composed(n, edges, tree, r) {
        Some(quotient(n, edges, tree, r, root))
    } else {
        None
    }
}

/// The links of a region as a graph of their own.
pub open spec fn link_edges(links: Seq<Link>) -> Seq<IEdge> {
    links.map_values(|link: Link| IEdge { from: link.from, to: link.to })
}

/// Builds the graph of the links between the entities of a region.
pub fn quotient_graph(q: &Quotient) -> (graph: FlowGraph)
    requires
        forall|i: int|
            #![trigger q.links@[i]]
            0 <= i < q.links@.len() ==> q.links@[i].from < q.count && q.links@[i].to < q.count,
    ensures
        is_flow_graph(&graph, q.count as int, link_edges(q.links@)),
{
    let mut graph = bare_graph(q.count);
    let total: usize = q.links.len();
    assert(link_edges(q.links@).take(0) =~= Seq::empty());
    for i in 0..q.links.len()
        invariant
            total == q.links@.len(),
            forall|i: int|
                #![trigger q.links@[i]]
                0 <= i < q.links@.len() ==> q.links@[i].from < q.count && q.links@[i].to < q.count,
            is_flow_graph(&graph, q.count as int, link_edges(q.links@).take(i as int)),
    {
        let link = q.links[i];
        assert(q.links@[i as int].from < q.count);
        add_edge(
            &mut graph,
            link.from,
            link.to,
            Ghost(q.count as int),
            Ghost(link_edges(q.links@).take(i as int)),
        );
        assert(link_edges(q.links@).take(i as int).push(IEdge { from: link.from, to: link.to })
            =~= link_edges(q.links@).take(i + 1));
    }
    assert(link_edges(q.links@).take(q.links@.len() as int) =~= link_edges(q.links@));
    graph
}

} // verus!
