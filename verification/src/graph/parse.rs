//! Graphs written as text.
//!
//! Each line declares a node, `name` or `name [data]`, or an edge, `from -> to` or
//! `from -> to [data]`. Nodes that only edges mention are declared by them. Without data of
//! its own a node has its name for data, and an edge its whole line.
use crate::graph::laws::{law_make_edge_keeps_links, law_make_node_keeps_links};
use crate::graph::owning::{is_linked, EdgeEntry, OwningGraph};
use crate::graph::Graph;
use crate::registry::{id_fits, Identifier};
use crate::text::{char_is_white, is_white, lines_of, next_line, same_text, to_chars, trim, trim_range};
use rustc_hash::FxHashMap;
use vstd::prelude::*;
use vstd::string::StrSliceExecFns;

verus! {

pub type TestGraph<'a> = OwningGraph<usize, usize, &'a str, &'a str>;

#[derive(Debug, Clone, Copy, PartialEq, Eq, Structural)]
pub enum ParseErrorKind {
    InvalidNodeDeclaration,
    InvalidEdgeDeclaration,
}

#[derive(Debug, Clone, Copy)]
pub struct ParseError<'src> {
    pub line_number: usize,
    pub line: &'src str,
    pub kind: ParseErrorKind,
}

// Declarations.

/// Where a name ends: at white space, or at an opening bracket.
pub open spec fn name_end(s: Seq<char>, from: int) -> int
    decreases s.len() - from,
{
    if from >= s.len() {
        s.len() as int
    } else if is_white(s[from]) || s[from] == '[' {
        from
    } else {
        name_end(s, from + 1)
    }
}

/// A name, with data in brackets behind it or without.
pub struct Declaration {
    pub name: Seq<char>,
    pub data: Option<Seq<char>>,
}

/// What a text declares, if anything.
pub open spec fn declaration(s: Seq<char>) -> Option<Declaration> {
    let t = trim(s);
    let end = name_end(t, 0);
    let rest = trim(t.skip(end));
    let data = trim(rest.subrange(1, rest.len() - 1));
    if t.len() == 0 || end == 0 {
        None
    } else if rest.len() == 0 {
        Some(Declaration { name: t.take(end), data: None })
    } else if rest[0] != '[' || rest.last() != ']' || data.len() == 0 {
        None
    } else {
        Some(Declaration { name: t.take(end), data: Some(data) })
    }
}

/// The name that a text consists of, if it is one.
pub open spec fn identifier(s: Seq<char>) -> Option<Seq<char>> {
    match declaration(s) {
        Some(d) => if d.data is None {
            Some(d.name)
        } else {
            None
        },
        None => None,
    }
}

/// The first arrow from `from` on.
pub open spec fn find_arrow(s: Seq<char>, from: int) -> Option<int>
    decreases s.len() - from,
{
    if from + 1 >= s.len() {
        None
    } else if s[from] == '-' && s[from + 1] == '>' {
        Some(from)
    } else {
        find_arrow(s, from + 1)
    }
}

// What a text says.

/// The names of the nodes in the order of their identifiers, their data, and the edges.
pub struct Parsed {
    pub names: Seq<Seq<char>>,
    pub data: Seq<Seq<char>>,
    pub edges: Seq<ParsedEdge>,
}

pub struct ParsedEdge {
    pub from: int,
    pub to: int,
    pub data: Seq<char>,
}

impl Parsed {
    pub open spec fn empty() -> Parsed {
        Parsed { names: Seq::empty(), data: Seq::empty(), edges: Seq::empty() }
    }

    /// With the node `name`, and with data for it if there are any.
    pub open spec fn with_node(self, name: Seq<char>, data: Option<Seq<char>>) -> Parsed {
        if self.names.contains(name) {
            match data {
                Some(data) => Parsed {
                    data: self.data.update(self.names.index_of(name), data),
                    ..self
                },
                None => self,
            }
        } else {
            Parsed {
                names: self.names.push(name),
                data: self.data.push(
                    match data {
                        Some(data) => data,
                        None => name,
                    },
                ),
                ..self
            }
        }
    }

    /// With an edge between two named nodes.
    pub open spec fn with_edge(self, from: Seq<char>, to: Seq<char>, data: Seq<char>) -> Parsed {
        Parsed {
            edges: self.edges.push(
                ParsedEdge { from: self.names.index_of(from), to: self.names.index_of(to), data },
            ),
            ..self
        }
    }

    /// After one more line, or why the line is invalid.
    pub open spec fn after_line(self, line: Seq<char>) -> Result<Parsed, ParseErrorKind> {
        let t = trim(line);
        if t.len() == 0 {
            Ok(self)
        } else {
            match find_arrow(t, 0) {
                Some(at) => match (identifier(t.take(at)), declaration(t.skip(at + 2))) {
                    (Some(from), Some(to)) => Ok(
                        self.with_node(from, None).with_node(to.name, None).with_edge(
                            from,
                            to.name,
                            match to.data {
                                Some(data) => data,
                                None => t,
                            },
                        ),
                    ),
                    _ => Err(ParseErrorKind::InvalidEdgeDeclaration),
                },
                None => match declaration(t) {
                    Some(d) => Ok(self.with_node(d.name, d.data)),
                    None => Err(ParseErrorKind::InvalidNodeDeclaration),
                },
            }
        }
    }

    /// Names are distinct, and edges lead between named nodes.
    pub open spec fn is_consistent(self) -> bool {
        &&& self.names.no_duplicates()
        &&& self.data.len() == self.names.len()
        &&& forall|i: int|
            #![trigger self.edges[i]]
            0 <= i < self.edges.len() ==> 0 <= self.edges[i].from < self.names.len() && 0
                <= self.edges[i].to < self.names.len()
    }
}

/// Where a text is invalid.
pub struct Fault {
    pub line: int,
    pub kind: ParseErrorKind,
}

/// What the first `k` lines say, or which of them is invalid first.
pub open spec fn parsed(lines: Seq<Seq<char>>, k: int) -> Result<Parsed, Fault>
    decreases k,
{
    if k <= 0 {
        Ok(Parsed::empty())
    } else {
        match parsed(lines, k - 1) {
            Ok(before) => match before.after_line(lines[k - 1]) {
                Ok(after) => Ok(after),
                Err(kind) => Err(Fault { line: k - 1, kind }),
            },
            Err(fault) => Err(fault),
        }
    }
}

/// The nodes and the edges of a graph have identifiers of their own.
pub open spec fn ids_fit<NodeId: Identifier, EdgeId: Identifier>(p: Parsed) -> bool {
    &&& forall|n: usize| n < p.names.len() ==> #[trigger] id_fits::<NodeId>(n)
    &&& forall|n: usize| n < p.edges.len() ==> #[trigger] id_fits::<EdgeId>(n)
}

/// So do those that the first valid lines make.
pub open spec fn lines_fit<NodeId: Identifier, EdgeId: Identifier>(lines: Seq<Seq<char>>) -> bool {
    forall|k: int|
        0 <= k <= lines.len() ==> (#[trigger] parsed(lines, k) matches Ok(p) ==> ids_fit::<
            NodeId,
            EdgeId,
        >(p))
}

proof fn lemma_fault_stays(lines: Seq<Seq<char>>, i: int, k: int)
    requires
        0 <= i <= k,
        parsed(lines, i) is Err,
    ensures
        parsed(lines, k) == parsed(lines, i),
    decreases k,
{
    if i < k {
        lemma_fault_stays(lines, i, k - 1);
    }
}

/// The graph is what was parsed: the nodes and edges in the order of their identifiers.
pub open spec fn is_graph_of<NodeId: Identifier, EdgeId: Identifier>(
    graph: &OwningGraph<NodeId, EdgeId, &str, &str>,
    p: Parsed,
) -> bool {
    &&& graph.next_node() == p.names.len()
    &&& graph.next_edge() == p.edges.len()
    &&& forall|id: NodeId| #[trigger]
        graph.node_map().contains_key(id) <==> id.spec_index() < p.names.len()
    &&& forall|id: NodeId| #[trigger]
        graph.node_map().contains_key(id) ==> graph.node_map()[id].data@
            == p.data[id.spec_index() as int]
    &&& forall|id: EdgeId| #[trigger]
        graph.edge_map().contains_key(id) <==> id.spec_index() < p.edges.len()
    &&& forall|id: EdgeId| #[trigger]
        graph.edge_map().contains_key(id) ==> {
            let edge = p.edges[id.spec_index() as int];
            &&& graph.edge_map()[id].from.spec_index() == edge.from
            &&& graph.edge_map()[id].to.spec_index() == edge.to
            &&& graph.edge_map()[id].data@ == edge.data
        }
}

// Tables of names.

/// `FxHashMap::default`: a new table holds nothing.
#[verifier::external_body]
fn names_new<'src>() -> (table: FxHashMap<&'src str, usize>)
    ensures
        table@.dom() == Set::<&'src str>::empty(),
{
    FxHashMap::default()
}

/// `FxHashMap::get`: the value of the key equal to `name`, if there is one. Strings are
/// equal if they hold the same characters.
#[verifier::external_body]
fn names_get(table: &FxHashMap<&str, usize>, name: &str) -> (found: Option<usize>)
    ensures
        found matches Some(i) ==> exists|key: &str| #[trigger] table@.contains_key(key) && key@ == name@ && table@[key] == i,
        found is None ==> forall|key: &str| #[trigger] table@.contains_key(key) ==> key@ != name@,
{
    table.get(name).copied()
}

/// `FxHashMap::insert`: `name`, which was no key before, leads to `i`.
#[verifier::external_body]
fn names_insert<'src>(table: &mut FxHashMap<&'src str, usize>, name: &'src str, i: usize)
    requires
        forall|key: &'src str| #[trigger] old(table)@.contains_key(key) ==> key@ != name@,
    ensures
        final(table)@ == old(table)@.insert(name, i),
{
    table.insert(name, i);
}

/// The table leads from each name to its place in the list, and from nothing else.
pub open spec fn is_table(table: Map<&str, usize>, names: Seq<Seq<char>>) -> bool {
    &&& forall|key: &str| #[trigger]
        table.contains_key(key) ==> table[key] < names.len() && names[table[key] as int] == key@
    &&& forall|i: int|
        #![trigger names[i]]
        0 <= i < names.len() ==> exists|key: &str| #[trigger]
            table.contains_key(key) && key@ == names[i]
}

// Reading.

/// The ranges of a name and of its data.
struct Found {
    name: (usize, usize),
    data: Option<(usize, usize)>,
}

spec fn shows(text: Seq<char>, found: Option<Found>, d: Option<Declaration>) -> bool {
    match (found, d) {
        (Some(f), Some(d)) => {
            &&& f.name.0 < f.name.1 <= text.len()
            &&& text.subrange(f.name.0 as int, f.name.1 as int) == d.name
            &&& match (f.data, d.data) {
                (Some(r), Some(data)) => {
                    &&& r.0 <= r.1 <= text.len()
                    &&& text.subrange(r.0 as int, r.1 as int) == data
                },
                (None, None) => true,
                _ => false,
            }
        },
        (None, None) => true,
        _ => false,
    }
}

/// Reads a declaration from a range of a text.
fn parse_declaration(text: &Vec<char>, lo: usize, hi: usize) -> (found: Option<Found>)
    requires
        lo <= hi <= text@.len(),
    ensures
        shows(text@, found, declaration(text@.subrange(lo as int, hi as int))),
        found matches Some(f) ==> lo <= f.name.0 && f.name.1 <= hi,
{
    let (a, b) = trim_range(text, lo, hi);
    let ghost t = text@.subrange(a as int, b as int);
    if a == b {
        return None;
    }
    let mut end: usize = a;
    assert(t.len() == b - a);
    while end < b && !char_is_white(text[end]) && text[end] != '['
        invariant
            a <= end <= b <= text@.len(),
            t == text@.subrange(a as int, b as int),
            name_end(t, end - a) == name_end(t, 0),
        decreases b - end,
    {
        assert(t[end - a] == text@[end as int]);
        end = end + 1;
    }
    proof {
        if end < b {
            assert(t[end - a] == text@[end as int]);
        }
        assert(name_end(t, 0) == end - a);
    }
    if end == a {
        return None;
    }
    let (c, d) = trim_range(text, end, b);
    proof {
        assert(t.take(end - a) =~= text@.subrange(a as int, end as int));
        assert(t.skip(end - a) =~= text@.subrange(end as int, b as int));
    }
    let ghost rest = text@.subrange(c as int, d as int);
    if c == d {
        return Some(Found { name: (a, end), data: None });
    }
    assert(rest[0] == text@[c as int]);
    assert(rest.last() == text@[d - 1]);
    if text[c] != '[' || text[d - 1] != ']' {
        return None;
    }
    assert(c + 1 < d);
    assert(rest.subrange(1, rest.len() - 1) =~= text@.subrange(c + 1, d - 1));
    let (x, y) = trim_range(text, c + 1, d - 1);
    if x == y {
        return None;
    }
    Some(Found { name: (a, end), data: Some((x, y)) })
}

/// The first arrow in a range of a text.
fn search_arrow(text: &Vec<char>, lo: usize, hi: usize) -> (at: Option<usize>)
    requires
        lo <= hi <= text@.len(),
    ensures
        match (at, find_arrow(text@.subrange(lo as int, hi as int), 0)) {
            (Some(i), Some(at)) => lo <= i && i == lo + at && i + 2 <= hi,
            (None, None) => true,
            _ => false,
        },
{
    let ghost t = text@.subrange(lo as int, hi as int);
    let mut i: usize = lo;
    while i < hi && i + 1 < hi
        invariant
            lo <= i <= hi <= text@.len(),
            t == text@.subrange(lo as int, hi as int),
            find_arrow(t, i - lo) == find_arrow(t, 0),
        decreases hi - i,
    {
        assert(t[i - lo] == text@[i as int] && t[i - lo + 1] == text@[i + 1]);
        if text[i] == '-' && text[i + 1] == '>' {
            return Some(i);
        }
        i = i + 1;
    }
    None
}

/// A graph while it is being read.
struct Reading<'src, NodeId: Identifier, EdgeId: Identifier> {
    graph: OwningGraph<NodeId, EdgeId, &'src str, &'src str>,
    table: FxHashMap<&'src str, usize>,
}

impl<'src, NodeId: Identifier, EdgeId: Identifier> Reading<'src, NodeId, EdgeId> {
    spec fn holds(&self, p: Parsed) -> bool {
        &&& self.graph.wf()
        &&& is_linked(self.graph.node_map(), self.graph.edge_map())
        &&& p.is_consistent()
        &&& is_graph_of(&self.graph, p)
        &&& is_table(self.table@, p.names)
        &&& forall|i: usize| i < p.names.len() ==> #[trigger] id_fits::<NodeId>(i)
    }

    /// The node `name`; a new one, or one that gets other data.
    #[verifier::rlimit(40)]
    fn ensure_node(
        &mut self,
        name: &'src str,
        explicit_data: Option<&'src str>,
        Ghost(p): Ghost<Parsed>,
    ) -> (id: NodeId)
        requires
            old(self).holds(p),
            p.names.len() < usize::MAX,
            p.names.contains(name@) || id_fits::<NodeId>(p.names.len() as usize),
        ensures
            ({
                let after = p.with_node(
                    name@,
                    match explicit_data {
                        Some(data) => Some(data@),
                        None => None,
                    },
                );
                &&& final(self).holds(after)
                &&& after.names.contains(name@)
                &&& after.names.index_of(name@) == id.spec_index()
                &&& final(self).graph.node_map().contains_key(id)
            }),
    {
        let ghost before = *self;
        match names_get(&self.table, name) {
            Some(i) => {
                proof {
                    let key = choose|key: &str| #[trigger]
                        self.table@.contains_key(key) && key@ == name@ && self.table@[key] == i;
                    assert(p.names[i as int] == name@);
                    assert(p.names.contains(name@));
                    assert(p.names.index_of(name@) == i);
                    before.graph.lemma_unissued();
                }
                let id = NodeId::from_usize(i);
                assert(id_fits::<NodeId>(i));
                if let Some(data) = explicit_data {
                    {
                        let mut node = self.graph.get_node_mut(id).unwrap();
                        let slot = node.data();
                        *slot = data;
                    }
                    proof {
                        let after = p.with_node(name@, Some(data@));
                        assert(is_linked(self.graph.node_map(), self.graph.edge_map())) by {
                            let (m, n) = (before.graph.node_map(), self.graph.node_map());
                            assert(n.dom() =~= m.dom());
                            assert forall|x: NodeId| #[trigger] m.contains_key(x) implies n[x].edges
                                == m[x].edges by {}
                            assert forall|x: NodeId, e: EdgeId|
                                n.contains_key(x) && #[trigger] n[x].edges.contains(e) implies before.graph.edge_map().contains_key(
                            e) && (before.graph.edge_map()[e].from == x
                                || before.graph.edge_map()[e].to == x) by {
                                assert(m.contains_key(x));
                                assert(m[x].edges.contains(e));
                            }
                        }
                        assert forall|x: NodeId| #[trigger] self.graph.node_map().contains_key(
                            x,
                        ) implies self.graph.node_map()[x].data@
                            == after.data[x.spec_index() as int] by {
                            assert(before.graph.node_map().contains_key(x));
                            crate::registry::lemma_id_injective(x, id);
                        }
                        assert(is_graph_of(&self.graph, after));
                    }
                }
                id
            },
            None => {
                let data: &'src str = match explicit_data {
                    Some(data) => data,
                    None => name,
                };
                proof {
                    if p.names.contains(name@) {
                        let i = p.names.index_of(name@);
                        assert(p.names[i] == name@);
                        let key = choose|key: &str| #[trigger]
                            self.table@.contains_key(key) && key@ == p.names[i];
                        assert(false);
                    }
                    law_make_node_keeps_links(
                        self.graph.node_map(),
                        self.graph.edge_map(),
                        NodeId::spec_from_index(p.names.len() as usize),
                        data,
                    );
                }
                let id = self.graph.make_node(data);
                names_insert(&mut self.table, name, id.to_usize());
                proof {
                    let after = p.with_node(
                        name@,
                        match explicit_data {
                            Some(data) => Some(data@),
                            None => None,
                        },
                    );
                    assert(after.names == p.names.push(name@));
                    assert(after.names[p.names.len() as int] == name@);
                    assert forall|x: NodeId| #[trigger]
                        self.graph.node_map().contains_key(x) <==> x.spec_index()
                        < after.names.len() by {
                        crate::registry::lemma_id_injective(x, id);
                        assert(before.graph.node_map().contains_key(x) <==> x.spec_index()
                            < p.names.len());
                    }
                    assert forall|x: NodeId| #[trigger]
                        self.graph.node_map().contains_key(x) implies self.graph.node_map()[x].data@
                        == after.data[x.spec_index() as int] by {
                        crate::registry::lemma_id_injective(x, id);
                        if x != id {
                            assert(before.graph.node_map().contains_key(x));
                        }
                    }
                    assert(is_table(self.table@, after.names)) by {
                        assert forall|i: int|
                            #![trigger after.names[i]]
                            0 <= i < after.names.len() implies exists|key: &str| #[trigger]
                            self.table@.contains_key(key) && key@ == after.names[i] by {
                            if i < p.names.len() {
                                assert(p.names[i] == after.names[i]);
                                let key = choose|key: &str| #[trigger]
                                    before.table@.contains_key(key) && key@ == p.names[i];
                                assert(self.table@.contains_key(key));
                            } else {
                                assert(self.table@.contains_key(name));
                            }
                        }
                    }
                    assert(after.is_consistent()) by {
                        assert(!p.names.contains(name@));
                    }
                    assert(is_graph_of(&self.graph, after));
                }
                id
            },
        }
    }
}

/// Where the parts of an edge line are.
struct FoundEdge {
    from: (usize, usize),
    to: (usize, usize),
    data: (usize, usize),
}

impl<'src, NodeId: Identifier, EdgeId: Identifier> Reading<'src, NodeId, EdgeId> {
    /// Adds an edge and what it lacks of its nodes.
    fn read_edge(
        &mut self,
        source: &'src str,
        f: FoundEdge,
        Ghost(p): Ghost<Parsed>,
    )
        requires
            old(self).holds(p),
            f.from.0 <= f.from.1 <= source@.len(),
            f.to.0 <= f.to.1 <= source@.len(),
            f.data.0 <= f.data.1 <= source@.len(),
            p.names.len() + 2 <= usize::MAX,
            p.edges.len() < usize::MAX,
            ({
                let from = source@.subrange(f.from.0 as int, f.from.1 as int);
                let to = source@.subrange(f.to.0 as int, f.to.1 as int);
                let data = source@.subrange(f.data.0 as int, f.data.1 as int);
                ids_fit::<NodeId, EdgeId>(
                    p.with_node(from, None).with_node(to, None).with_edge(from, to, data),
                )
            }),
        ensures
            ({
                let from = source@.subrange(f.from.0 as int, f.from.1 as int);
                let to = source@.subrange(f.to.0 as int, f.to.1 as int);
                let data = source@.subrange(f.data.0 as int, f.data.1 as int);
                final(self).holds(
                    p.with_node(from, None).with_node(to, None).with_edge(from, to, data),
                )
            }),
    {
        let from: &'src str = source.substring_char(f.from.0, f.from.1);
        let to: &'src str = source.substring_char(f.to.0, f.to.1);
        let data: &'src str = source.substring_char(f.data.0, f.data.1);
        let ghost p1 = p.with_node(from@, None);
        let ghost p2 = p1.with_node(to@, None);
        proof {
            let p3 = p2.with_edge(from@, to@, data@);
            assert(ids_fit::<NodeId, EdgeId>(p3));
            assert(p3.names.len() >= p1.names.len() >= p.names.len());
            assert(id_fits::<EdgeId>(p.edges.len() as usize));
        }
        let from_id = self.ensure_node(from, None, Ghost(p));
        let to_id = self.ensure_node(to, None, Ghost(p1));
        let ghost before = *self;
        proof {
            assert(p1.names.contains(from@));
            let i = p1.names.index_of(from@);
            assert(p2.names[i] == from@);
            assert(p2.names.index_of(from@) == i);
            assert(self.graph.node_map().contains_key(from_id));
            law_make_edge_keeps_links(
                self.graph.node_map(),
                self.graph.edge_map(),
                EdgeId::spec_from_index(p.edges.len() as usize),
                EdgeEntry { from: from_id, to: to_id, data },
            );
        }
        let id = self.graph.make_edge(from_id, to_id, data);
        proof {
            let p3 = p2.with_edge(from@, to@, data@);
            assert(self.graph.node_map().dom() =~= before.graph.node_map().dom());
            assert forall|x: NodeId| #[trigger] self.graph.node_map().contains_key(x) <==> x.spec_index()
                < p3.names.len() by {
                assert(before.graph.node_map().contains_key(x) <==> x.spec_index()
                    < p2.names.len());
            }
            assert forall|x: NodeId| #[trigger]
                self.graph.node_map().contains_key(x) implies self.graph.node_map()[x].data@
                == p3.data[x.spec_index() as int] by {
                assert(before.graph.node_map().contains_key(x));
            }
            assert forall|e: EdgeId| #[trigger] self.graph.edge_map().contains_key(e) <==> e.spec_index()
                < p3.edges.len() by {
                crate::registry::lemma_id_injective(e, id);
                assert(before.graph.edge_map().contains_key(e) <==> e.spec_index()
                    < p2.edges.len());
            }
            assert forall|e: EdgeId| #[trigger] self.graph.edge_map().contains_key(e) implies {
                let edge = p3.edges[e.spec_index() as int];
                &&& self.graph.edge_map()[e].from.spec_index() == edge.from
                &&& self.graph.edge_map()[e].to.spec_index() == edge.to
                &&& self.graph.edge_map()[e].data@ == edge.data
            } by {
                crate::registry::lemma_id_injective(e, id);
                if e != id {
                    assert(before.graph.edge_map().contains_key(e));
                }
            }
            assert(is_graph_of(&self.graph, p3));
        }
    }

    /// Reads one line.
    fn read_line(
        &mut self,
        source: &'src str,
        text: &Vec<char>,
        lo: usize,
        hi: usize,
        Ghost(p): Ghost<Parsed>,
    ) -> (result: Result<(), ParseErrorKind>)
        requires
            old(self).holds(p),
            text@ == source@,
            lo <= hi <= text@.len(),
            p.names.len() <= lo,
            p.edges.len() <= lo,
            p.after_line(text@.subrange(lo as int, hi as int)) matches Ok(after) ==> ids_fit::<
                NodeId,
                EdgeId,
            >(after),
        ensures
            match (result, p.after_line(text@.subrange(lo as int, hi as int))) {
                (Ok(_), Ok(after)) => final(self).holds(after) && after.names.len() <= hi
                    && after.edges.len() <= hi,
                (Err(kind), Err(expected)) => kind == expected,
                _ => false,
            },
    {
        let (a, b) = trim_range(text, lo, hi);
        let ghost t = text@.subrange(a as int, b as int);
        if a == b {
            return Ok(());
        }
        match search_arrow(text, a, b) {
            Some(at) => {
                proof {
                    assert(t.take(at - a) =~= text@.subrange(a as int, at as int));
                    assert(t.skip(at - a + 2) =~= text@.subrange(at + 2, b as int));
                }
                let from = parse_declaration(text, a, at);
                let to = parse_declaration(text, at + 2, b);
                match (from, to) {
                    (Some(from), Some(to)) => {
                        if from.data.is_some() {
                            return Err(ParseErrorKind::InvalidEdgeDeclaration);
                        }
                        let data = match to.data {
                            Some(range) => range,
                            None => (a, b),
                        };
                        self.read_edge(
                            source,
                            FoundEdge { from: from.name, to: to.name, data },
                            Ghost(p),
                        );
                        Ok(())
                    },
                    _ => Err(ParseErrorKind::InvalidEdgeDeclaration),
                }
            },
            None => {
                match parse_declaration(text, a, b) {
                    Some(found) => {
                        let name: &'src str = source.substring_char(found.name.0, found.name.1);
                        let data: Option<&'src str> = match found.data {
                            Some(range) => Some(source.substring_char(range.0, range.1)),
                            None => None,
                        };
                        proof {
                            assert(t =~= text@.subrange(a as int, b as int));
                            assert(p.names.contains(name@) || id_fits::<NodeId>(
                                p.names.len() as usize,
                            ));
                        }
                        self.ensure_node(name, data, Ghost(p));
                        Ok(())
                    },
                    None => Err(ParseErrorKind::InvalidNodeDeclaration),
                }
            },
        }
    }
}

impl<'src, NodeId: Identifier, EdgeId: Identifier> OwningGraph<
    NodeId,
    EdgeId,
    &'src str,
    &'src str,
> {
    /// Reads a graph from a text. The first invalid line is reported with its number,
    /// counted from one.
    pub fn parse(source: &'src str) -> (result: Result<Self, ParseError<'src>>)
        requires
            lines_fit::<NodeId, EdgeId>(lines_of(source@)),
        ensures
            match (result, parsed(lines_of(source@), lines_of(source@).len() as int)) {
                (Ok(graph), Ok(p)) => {
                    &&& graph.wf()
                    &&& is_linked(graph.node_map(), graph.edge_map())
                    &&& p.is_consistent()
                    &&& is_graph_of(&graph, p)
                },
                (Err(error), Err(fault)) => {
                    &&& error.line_number == fault.line + 1
                    &&& error.line@ == lines_of(source@)[fault.line]
                    &&& error.kind == fault.kind
                },
                _ => false,
            },
    {
        let text = to_chars(source);
        let total: usize = text.len();
        let ghost lines = lines_of(source@);
        let mut reading: Reading<'src, NodeId, EdgeId> = Reading {
            graph: OwningGraph::default(),
            table: names_new(),
        };
        let ghost mut p = Parsed::empty();
        let mut pos: usize = 0;
        let mut count: usize = 0;
        proof {
            assert(text@.skip(0) =~= text@);
            assert(lines.take(0) + lines =~= lines);
            reading.graph.lemma_unissued();
            assert(is_graph_of(&reading.graph, p));
        }
        while pos < total
            invariant
                text@ == source@,
                total == text@.len(),
                lines == lines_of(source@),
                lines_fit::<NodeId, EdgeId>(lines),
                pos <= text@.len(),
                count <= pos,
                count <= lines.len(),
                lines == lines.take(count as int) + lines_of(text@.skip(pos as int)),
                reading.holds(p),
                parsed(lines, count as int) == Result::<Parsed, Fault>::Ok(p),
                p.names.len() <= pos,
                p.edges.len() <= pos,
            decreases text@.len() - pos,
        {
            let (end, next) = next_line(&text, pos);
            let ghost line = text@.subrange(pos as int, end as int);
            proof {
                assert(lines[count as int] == line);
                assert(lines.take(count + 1) =~= lines.take(count as int).push(line));
                assert(lines =~= lines.take(count + 1) + lines_of(text@.skip(next as int)));
                if let Ok(after) = p.after_line(line) {
                    assert(parsed(lines, count + 1) == Result::<Parsed, Fault>::Ok(after));
                    assert(ids_fit::<NodeId, EdgeId>(after));
                }
            }
            match reading.read_line(source, &text, pos, end, Ghost(p)) {
                Ok(()) => {
                    proof {
                        p = p.after_line(line)->Ok_0;
                    }
                    pos = next;
                    count = count + 1;
                },
                Err(kind) => {
                    proof {
                        assert(parsed(lines, count + 1) == Result::<Parsed, Fault>::Err(
                            Fault { line: count as int, kind },
                        ));
                        lemma_fault_stays(lines, count + 1, lines.len() as int);
                    }
                    return Err(
                        ParseError {
                            line_number: count + 1,
                            line: source.substring_char(pos, end),
                            kind,
                        },
                    );
                },
            }
        }
        proof {
            assert(lines_of(text@.skip(pos as int)) =~= Seq::<Seq<char>>::empty());
            assert(lines.take(count as int) + Seq::<Seq<char>>::empty() =~= lines.take(
                count as int,
            ));
            assert(count == lines.len());
        }
        Ok(reading.graph)
    }

    /// The first node with the data `name`.
    pub fn get_node_by_name(&self, name: &str) -> (found: Option<NodeId>)
        requires
            self.wf(),
        ensures
            match found {
                Some(id) => {
                    &&& self.node_map().contains_key(id)
                    &&& self.node_map()[id].data@ == name@
                    &&& forall|other: NodeId| #[trigger]
                        self.node_map().contains_key(other) && other.spec_index() < id.spec_index()
                            ==> self.node_map()[other].data@ != name@
                },
                None => forall|other: NodeId| #[trigger]
                    self.node_map().contains_key(other) ==> self.node_map()[other].data@ != name@,
            },
    {
        let ids = self.node_ids();
        proof {
            self.lemma_members();
        }
        for i in 0..ids.len()
            invariant
                self.wf(),
                ids@ == self.spec_nodes(),
                forall|k: int|
                    0 <= k < i ==> self.node_map()[#[trigger] ids@[k]].data@ != name@,
        {
            proof {
                self.lemma_members();
                assert(self.spec_nodes().contains(ids@[i as int]));
            }
            let id = ids[i];
            let data: &str = *self.get_node(id).unwrap().data();
            if same_text(data, name) {
                proof {
                    assert forall|other: NodeId| #[trigger]
                        self.node_map().contains_key(other) && other.spec_index()
                            < id.spec_index() implies self.node_map()[other].data@ != name@ by {
                        assert(self.spec_nodes().contains(other));
                        let k = ids@.index_of(other);
                        assert(ids@[k] == other);
                        if k > i {
                            assert(ids@[i as int].spec_index() < ids@[k].spec_index());
                        }
                    }
                }
                return Some(id);
            }
        }
        proof {
            self.lemma_members();
            assert forall|other: NodeId| #[trigger]
                self.node_map().contains_key(other) implies self.node_map()[other].data@ != name@ by {
                assert(self.spec_nodes().contains(other));
                let k = ids@.index_of(other);
                assert(ids@[k] == other);
            }
        }
        None
    }

    /// The first edge with the given data.
    pub fn get_edge_by_data(&self, data: &str) -> (found: Option<EdgeId>)
        requires
            self.wf(),
        ensures
            match found {
                Some(id) => {
                    &&& self.edge_map().contains_key(id)
                    &&& self.edge_map()[id].data@ == data@
                    &&& forall|other: EdgeId| #[trigger]
                        self.edge_map().contains_key(other) && other.spec_index() < id.spec_index()
                            ==> self.edge_map()[other].data@ != data@
                },
                None => forall|other: EdgeId| #[trigger]
                    self.edge_map().contains_key(other) ==> self.edge_map()[other].data@ != data@,
            },
    {
        let ids = self.edge_ids();
        proof {
            self.lemma_members();
        }
        for i in 0..ids.len()
            invariant
                self.wf(),
                ids@ == self.spec_edges(),
                forall|k: int|
                    0 <= k < i ==> self.edge_map()[#[trigger] ids@[k]].data@ != data@,
        {
            proof {
                self.lemma_members();
                assert(self.spec_edges().contains(ids@[i as int]));
            }
            let id = ids[i];
            let payload: &str = *self.get_edge(id).unwrap().data();
            if same_text(payload, data) {
                proof {
                    assert forall|other: EdgeId| #[trigger]
                        self.edge_map().contains_key(other) && other.spec_index()
                            < id.spec_index() implies self.edge_map()[other].data@ != data@ by {
                        assert(self.spec_edges().contains(other));
                        let k = ids@.index_of(other);
                        assert(ids@[k] == other);
                        if k > i {
                            assert(ids@[i as int].spec_index() < ids@[k].spec_index());
                        }
                    }
                }
                return Some(id);
            }
        }
        proof {
            self.lemma_members();
            assert forall|other: EdgeId| #[trigger]
                self.edge_map().contains_key(other) implies self.edge_map()[other].data@ != data@ by {
                assert(self.spec_edges().contains(other));
                let k = ids@.index_of(other);
                assert(ids@[k] == other);
            }
        }
        None
    }
}

} // verus!
