//! What holds of the graphs that texts describe.
use crate::graph::owning::OwningGraph;
use crate::graph::parse::{
    declaration, find_arrow, identifier, is_graph_of, name_end, parsed, Declaration, Fault,
    ParseErrorKind, Parsed,
};
use crate::registry::Identifier;
use crate::text::{
    is_bare, is_blank, is_white, law_trim_leaves_the_middle, law_trim_takes_padding, trim,
};
use vstd::prelude::*;

verus! {

/// Data in brackets: white space before the brackets, and around the data in them.
pub struct Bracketed {
    pub gap: Seq<char>,
    pub before: Seq<char>,
    pub data: Seq<char>,
    pub after: Seq<char>,
}

impl Bracketed {
    /// The brackets with what stands in them.
    pub open spec fn brackets(self) -> Seq<char> {
        seq!['['] + (self.before + self.data + self.after) + seq![']']
    }

    pub open spec fn is_valid(self) -> bool {
        &&& is_blank(self.gap)
        &&& is_blank(self.before)
        &&& self.data.len() > 0
        &&& is_bare(self.data)
        &&& is_blank(self.after)
    }
}

/// A declaration as a text writes it: a name, perhaps data in brackets behind it, and white
/// space around.
pub struct Written {
    pub before: Seq<char>,
    pub name: Seq<char>,
    pub data: Option<Bracketed>,
    pub after: Seq<char>,
}

/// Neither white space nor an opening bracket.
pub open spec fn is_name(name: Seq<char>) -> bool {
    &&& name.len() > 0
    &&& forall|i: int| 0 <= i < name.len() ==> !is_white(#[trigger] name[i]) && name[i] != '['
}

/// No arrow stands in a text.
pub open spec fn is_without_arrow(s: Seq<char>) -> bool {
    forall|i: int| 0 <= i < s.len() - 1 && #[trigger] s[i] == '-' ==> s[i + 1] != '>'
}

impl Written {
    /// The name and the data, without white space around them.
    pub open spec fn inside(self) -> Seq<char> {
        self.name + match self.data {
            Some(b) => b.gap + b.brackets(),
            None => Seq::empty(),
        }
    }

    pub open spec fn text(self) -> Seq<char> {
        self.before + self.inside() + self.after
    }

    pub open spec fn is_valid(self) -> bool {
        &&& is_blank(self.before)
        &&& is_name(self.name)
        &&& (self.data matches Some(b) ==> b.is_valid())
        &&& is_blank(self.after)
    }

    /// What is declared.
    pub open spec fn meaning(self) -> Declaration {
        Declaration {
            name: self.name,
            data: match self.data {
                Some(b) => Some(b.data),
                None => None,
            },
        }
    }
}

/// A name ends where white space or a bracket follows, or with the text.
pub proof fn law_name_ends(name: Seq<char>, rest: Seq<char>)
    requires
        is_name(name),
        rest.len() > 0 ==> is_white(rest[0]) || rest[0] == '[',
    ensures
        name_end(name + rest, 0) == name.len(),
{
    lemma_name_end(name + rest, 0);
    let s = name + rest;
    let end = name_end(s, 0);
    if end < name.len() {
        assert(s[end] == name[end]);
    }
    if end > name.len() {
        assert(s[name.len() as int] == rest[0]);
    }
}

proof fn lemma_name_end(s: Seq<char>, from: int)
    requires
        0 <= from <= s.len(),
    ensures
        from <= name_end(s, from) <= s.len(),
        name_end(s, from) < s.len() ==> is_white(s[name_end(s, from)]) || s[name_end(s, from)]
            == '[',
        forall|i: int|
            from <= i < name_end(s, from) ==> !is_white(#[trigger] s[i]) && s[i] != '[',
    decreases s.len() - from,
{
    if from < s.len() && !(is_white(s[from]) || s[from] == '[') {
        lemma_name_end(s, from + 1);
    }
}

proof fn lemma_inside(w: Written)
    requires
        w.is_valid(),
    ensures
        w.inside().len() > 0,
        is_bare(w.inside()),
        trim(w.text()) == w.inside(),
{
    let middle = w.inside();
    assert(middle[0] == w.name[0]);
    match w.data {
        Some(b) => {
            assert(middle.last() == ']');
        },
        None => {
            assert(middle =~= w.name);
            assert(middle.last() == w.name[w.name.len() - 1]);
        },
    }
    law_trim_takes_padding(w.before, middle, w.after);
}

/// Every declaration that is written is read: its name, and its data if it has any.
pub proof fn law_written_declaration_is_read(w: Written)
    requires
        w.is_valid(),
    ensures
        declaration(w.text()) == Some(w.meaning()),
{
    let t = w.inside();
    lemma_inside(w);
    match w.data {
        Some(b) => {
            let tail = b.gap + b.brackets();
            assert(tail[0] == if b.gap.len() > 0 { b.gap[0] } else { '[' });
            law_name_ends(w.name, tail);
            assert(t.take(w.name.len() as int) =~= w.name);
            assert(t.skip(w.name.len() as int) =~= b.gap + b.brackets() + Seq::<char>::empty());
            assert(is_bare(b.brackets()));
            law_trim_takes_padding(b.gap, b.brackets(), Seq::empty());
            let rest = b.brackets();
            assert(rest.subrange(1, rest.len() - 1) =~= b.before + b.data + b.after);
            law_trim_takes_padding(b.before, b.data, b.after);
        },
        None => {
            law_name_ends(w.name, Seq::empty());
            assert(w.name + Seq::<char>::empty() =~= w.name);
            assert(t =~= w.name);
            let end = w.name.len() as int;
            assert(t.take(end) =~= w.name);
            assert(t.skip(end) =~= Seq::<char>::empty() + Seq::<char>::empty()
                + Seq::<char>::empty());
            law_trim_takes_padding(Seq::empty(), Seq::empty(), Seq::empty());
        },
    }
}

/// Whatever is read as a declaration is one that is written so.
pub proof fn law_read_declaration_is_written(s: Seq<char>) -> (w: Written)
    requires
        declaration(s) is Some,
    ensures
        w.is_valid(),
        w.text() == s,
        declaration(s) == Some(w.meaning()),
{
    let d = declaration(s)->Some_0;
    let t = trim(s);
    let pads = law_trim_leaves_the_middle(s);
    let end = name_end(t, 0);
    lemma_name_end(t, 0);
    let name = t.take(end);
    let tail = t.skip(end);
    let inner = law_trim_leaves_the_middle(tail);
    let rest = trim(tail);
    assert forall|i: int| 0 <= i < name.len() implies !is_white(#[trigger] name[i]) && name[i]
        != '[' by {
        assert(name[i] == t[i]);
    }
    assert(t =~= name + tail);
    if rest.len() == 0 {
        if tail.len() > 0 {
            assert(tail =~= inner.0 + inner.1);
            assert(tail.last() == t.last());
            if inner.1.len() > 0 {
                assert(is_white(inner.1[inner.1.len() - 1]));
            } else {
                assert(is_white(inner.0[inner.0.len() - 1]));
            }
            assert(false);
        }
        let w = Written { before: pads.0, name, data: None, after: pads.1 };
        assert(w.inside() =~= t);
        w
    } else {
        let inside = rest.subrange(1, rest.len() - 1);
        let last = law_trim_leaves_the_middle(inside);
        let b = Bracketed { gap: inner.0, before: last.0, data: trim(inside), after: last.1 };
        assert(rest.len() >= 2) by {
            assert(rest[0] == '[' && rest.last() == ']');
        }
        assert(rest =~= b.brackets());
        assert(inner.1.len() == 0) by {
            if inner.1.len() > 0 {
                assert(is_white(inner.1[inner.1.len() - 1]));
                assert(tail.last() == inner.1.last());
                assert(t.last() == tail.last());
            }
        }
        let w = Written { before: pads.0, name, data: Some(b), after: pads.1 };
        assert(tail =~= b.gap + b.brackets());
        assert(w.inside() =~= t);
        w
    }
}

/// The first arrow: it stands there, and nowhere before.
pub proof fn law_first_arrow(s: Seq<char>, from: int)
    requires
        0 <= from <= s.len(),
    ensures
        match find_arrow(s, from) {
            Some(at) => {
                &&& from <= at < s.len() - 1
                &&& s[at] == '-' && s[at + 1] == '>'
                &&& forall|i: int| from <= i < at && #[trigger] s[i] == '-' ==> s[i + 1] != '>'
            },
            None => forall|i: int|
                from <= i < s.len() - 1 && #[trigger] s[i] == '-' ==> s[i + 1] != '>',
        },
    decreases s.len() - from,
{
    if from + 1 < s.len() && !(s[from] == '-' && s[from + 1] == '>') {
        law_first_arrow(s, from + 1);
    }
}

/// An edge line: a name without an arrow in it, an arrow, and a declaration.
pub open spec fn edge_line(x: Written, y: Written) -> Seq<char> {
    x.text() + seq!['-', '>'] + y.text()
}

/// The line without white space around it.
pub open spec fn bare_edge_line(x: Written, y: Written) -> Seq<char> {
    x.inside() + x.after + seq!['-', '>'] + y.before + y.inside()
}

pub open spec fn is_edge_line(x: Written, y: Written) -> bool {
    &&& x.is_valid()
    &&& y.is_valid()
    &&& x.data is None
    &&& is_without_arrow(x.name)
}

proof fn lemma_edge_line(x: Written, y: Written)
    requires
        is_edge_line(x, y),
    ensures
        ({
            let t = bare_edge_line(x, y);
            let at = (x.name.len() + x.after.len()) as int;
            &&& t.len() > 0
            &&& trim(edge_line(x, y)) == t
            &&& find_arrow(t, 0) == Some(at)
            &&& identifier(t.take(at)) == Some(x.name)
            &&& declaration(t.skip(at + 2)) == Some(y.meaning())
        }),
{
    let t = bare_edge_line(x, y);
    let at = (x.name.len() + x.after.len()) as int;
    lemma_inside(x);
    lemma_inside(y);
    assert(x.inside() =~= x.name);
    assert(t[0] == x.inside()[0]);
    assert(t.last() == y.inside().last());
    assert(edge_line(x, y) =~= x.before + t + y.after);
    law_trim_takes_padding(x.before, t, y.after);
    assert(t[at] == '-' && t[at + 1] == '>');
    law_first_arrow(t, 0);
    match find_arrow(t, 0) {
        Some(i) => {
            if i < at {
                if i < x.name.len() {
                    assert(t[i] == x.name[i]);
                    if i + 1 < x.name.len() {
                        assert(t[i + 1] == x.name[i + 1]);
                    } else if i + 1 < at {
                        assert(t[i + 1] == x.after[0]);
                    }
                } else {
                    assert(t[i] == x.after[i - x.name.len()]);
                }
                assert(false);
            }
        },
        None => {
            assert(t[at] == '-');
        },
    }
    let left = Written { before: Seq::empty(), ..x };
    let right = Written { after: Seq::empty(), ..y };
    assert(t.take(at) =~= left.text());
    assert(t.skip(at + 2) =~= right.text());
    law_written_declaration_is_read(left);
    law_written_declaration_is_read(right);
}

/// Nodes and edges so far keep their places.
pub open spec fn continues(p: Parsed, q: Parsed) -> bool {
    &&& p.names.is_prefix_of(q.names)
    &&& p.edges.is_prefix_of(q.edges)
}

/// The edge of a line `x -> y` leads from the node named `x` to the node named `y`. Its
/// data are those in brackets, or else the line. Nodes that are new have their names for
/// data; nothing else changes.
pub proof fn law_edge_line_joins_its_names(p: Parsed, x: Written, y: Written) -> (q: Parsed)
    requires
        p.is_consistent(),
        is_edge_line(x, y),
    ensures
        p.after_line(edge_line(x, y)) == Result::<Parsed, ParseErrorKind>::Ok(q),
        q.is_consistent(),
        continues(p, q),
        q.edges.len() == p.edges.len() + 1,
        q.names[q.edges.last().from] == x.name,
        q.names[q.edges.last().to] == y.name,
        q.edges.last().data == match y.data {
            Some(b) => b.data,
            None => bare_edge_line(x, y),
        },
        forall|i: int|
            0 <= i < p.names.len() ==> #[trigger] q.data[i] == p.data[i],
        forall|i: int|
            p.names.len() <= i < q.names.len() ==> #[trigger] q.data[i] == q.names[i] && (q.names[i]
                == x.name || q.names[i] == y.name),
        !p.names.contains(x.name) ==> q.names[p.names.len() as int] == x.name,
{
    lemma_edge_line(x, y);
    let p1 = p.with_node(x.name, None);
    let p2 = p1.with_node(y.name, None);
    let q = p.after_line(edge_line(x, y))->Ok_0;
    lemma_with_node(p, x.name, None);
    lemma_with_node(p1, y.name, None);
    let i = p1.names.index_of(x.name);
    assert(p1.names[i] == x.name);
    assert(p2.names[i] == x.name);
    assert(p2.names.contains(x.name));
    assert(p2.names.contains(y.name));
    q
}

/// The node of a line has the data that are written behind its name. A node without has its
/// name for data, unless it had other data before. Nothing else changes.
proof fn lemma_with_node(p: Parsed, name: Seq<char>, data: Option<Seq<char>>)
    requires
        p.is_consistent(),
    ensures
        ({
            let q = p.with_node(name, data);
            &&& q.is_consistent()
            &&& q.edges == p.edges
            &&& p.names.is_prefix_of(q.names)
            &&& q.names.len() == p.names.len() + if p.names.contains(name) { 0int } else { 1 }
            &&& q.names.contains(name)
            &&& q.names[q.names.index_of(name)] == name
            &&& !p.names.contains(name) ==> q.names.last() == name
            &&& q.data[q.names.index_of(name)] == match data {
                Some(data) => data,
                None => if p.names.contains(name) {
                    p.data[p.names.index_of(name)]
                } else {
                    name
                },
            }
            &&& forall|i: int|
                0 <= i < p.names.len() && p.names[i] != name ==> #[trigger] q.data[i] == p.data[i]
            &&& data is None ==> forall|i: int|
                0 <= i < p.names.len() ==> #[trigger] q.data[i] == p.data[i]
        }),
{
    let q = p.with_node(name, data);
    if !p.names.contains(name) {
        assert(q.names[p.names.len() as int] == name);
        assert(q.names.no_duplicates()) by {
            assert forall|i: int, j: int|
                0 <= i < q.names.len() && 0 <= j < q.names.len() && i != j implies q.names[i]
                != q.names[j] by {
                if i < p.names.len() {
                    assert(p.names.contains(p.names[i]));
                }
                if j < p.names.len() {
                    assert(p.names.contains(p.names[j]));
                }
            }
        }
    }
}

/// The node of a line `name` or `name [data]` has the data in brackets, or else those that
/// it had, or else its name. Nothing else changes.
pub proof fn law_node_line_declares_its_name(p: Parsed, w: Written) -> (q: Parsed)
    requires
        p.is_consistent(),
        w.is_valid(),
        is_without_arrow(w.inside()),
    ensures
        p.after_line(w.text()) == Result::<Parsed, ParseErrorKind>::Ok(q),
        q.is_consistent(),
        q.edges == p.edges,
        p.names.is_prefix_of(q.names),
        q.names.len() <= p.names.len() + 1,
        q.names.len() == p.names.len() <==> p.names.contains(w.name),
        exists|i: int|
            0 <= i < q.names.len() && q.names[i] == w.name && #[trigger] q.data[i] == match w.data {
                Some(b) => b.data,
                None => if i < p.names.len() {
                    p.data[i]
                } else {
                    w.name
                },
            },
        forall|i: int|
            0 <= i < p.names.len() && q.names[i] != w.name ==> #[trigger] q.data[i] == p.data[i],
{
    lemma_inside(w);
    let t = w.inside();
    law_first_arrow(t, 0);
    let bare = Written { before: Seq::empty(), after: Seq::empty(), ..w };
    assert(bare.text() =~= t);
    law_written_declaration_is_read(bare);
    let q = p.after_line(w.text())->Ok_0;
    lemma_with_node(p, w.name, w.meaning().data);
    let i = q.names.index_of(w.name);
    assert(q.names[i] == w.name);
    if p.names.contains(w.name) {
        let j = p.names.index_of(w.name);
        assert(p.names[j] == w.name);
        assert(q.names[j] == w.name);
        assert(i == j);
    }
    assert(q.data[i] == q.data[q.names.index_of(w.name)]);
    q
}

/// A line of white space says nothing.
pub proof fn law_blank_line_says_nothing(p: Parsed, line: Seq<char>)
    requires
        is_blank(line),
    ensures
        p.after_line(line) == Result::<Parsed, ParseErrorKind>::Ok(p),
{
    law_trim_takes_padding(line, Seq::empty(), Seq::empty());
    assert(line + Seq::<char>::empty() + Seq::<char>::empty() =~= line);
}

/// How a valid line is written.
pub enum Line {
    Blank,
    Node(Written),
    Edge(Written, Written),
}

/// Lines are blank, or declare a node or an edge; all others are refused. A line with an
/// arrow is refused as an edge, and one without as a node.
#[verifier::rlimit(60)]
pub proof fn law_other_lines_are_refused(p: Parsed, line: Seq<char>) -> (form: Line)
    ensures
        match p.after_line(line) {
            Ok(_) => match form {
                Line::Blank => is_blank(line),
                Line::Node(w) => w.is_valid() && is_without_arrow(w.inside()) && w.text() == line,
                Line::Edge(x, y) => is_edge_line(x, y) && edge_line(x, y) == line,
            },
            Err(kind) => (kind == ParseErrorKind::InvalidNodeDeclaration) == is_without_arrow(line),
        },
{
    let t = trim(line);
    let pads = law_trim_leaves_the_middle(line);
    law_first_arrow(t, 0);
    assert(is_without_arrow(line) == is_without_arrow(t)) by {
        lemma_arrow_in_the_middle(pads.0, t, pads.1);
    }
    if t.len() == 0 {
        assert(line =~= pads.0 + pads.1);
        assert forall|i: int| 0 <= i < line.len() implies is_white(#[trigger] line[i]) by {
            if i < pads.0.len() {
                assert(is_white(pads.0[i]));
            } else {
                assert(is_white(pads.1[i - pads.0.len()]));
            }
        }
        Line::Blank
    } else {
        match find_arrow(t, 0) {
            Some(at) => {
                if identifier(t.take(at)) is Some && declaration(t.skip(at + 2)) is Some {
                    let x = law_read_declaration_is_written(t.take(at));
                    let y = law_read_declaration_is_written(t.skip(at + 2));
                    let left = Written { before: pads.0 + x.before, ..x };
                    let right = Written { after: y.after + pads.1, ..y };
                    assert(x.inside() =~= x.name);
                    assert forall|i: int| 0 <= i < left.before.len() implies is_white(
                        #[trigger] left.before[i],
                    ) by {
                        if i < pads.0.len() {
                            assert(is_white(pads.0[i]));
                        } else {
                            assert(is_white(x.before[i - pads.0.len()]));
                        }
                    }
                    assert forall|i: int| 0 <= i < right.after.len() implies is_white(
                        #[trigger] right.after[i],
                    ) by {
                        if i < y.after.len() {
                            assert(is_white(y.after[i]));
                        } else {
                            assert(is_white(pads.1[i - y.after.len()]));
                        }
                    }
                    assert(is_without_arrow(x.name)) by {
                        assert forall|i: int|
                            0 <= i < x.name.len() - 1 && #[trigger] x.name[i]
                                == '-' implies x.name[i + 1] != '>' by {
                            let j = i + x.before.len();
                            assert(t[j] == t.take(at)[j] && t[j] == x.name[i]);
                            assert(t[j + 1] == t.take(at)[j + 1] && t[j + 1] == x.name[i + 1]);
                        }
                    }
                    assert(t =~= t.take(at) + seq!['-', '>'] + t.skip(at + 2));
                    assert(edge_line(left, right) =~= line);
                    Line::Edge(left, right)
                } else {
                    Line::Blank
                }
            },
            None => {
                if declaration(t) is Some {
                    let w = law_read_declaration_is_written(t);
                    lemma_inside(w);
                    law_trim_takes_padding(Seq::empty(), t, Seq::empty());
                    assert(Seq::<char>::empty() + t + Seq::<char>::empty() =~= t);
                    assert(w.inside() == t);
                    let own = Written { before: pads.0, after: pads.1, ..w };
                    assert(own.text() =~= line);
                    Line::Node(own)
                } else {
                    Line::Blank
                }
            },
        }
    }
}

proof fn lemma_arrow_in_the_middle(a: Seq<char>, t: Seq<char>, b: Seq<char>)
    requires
        is_blank(a),
        is_blank(b),
    ensures
        is_without_arrow(a + t + b) == is_without_arrow(t),
{
    let s = a + t + b;
    if is_without_arrow(t) {
        assert forall|i: int| 0 <= i < s.len() - 1 && #[trigger] s[i] == '-' implies s[i + 1]
            != '>' by {
            if i < a.len() {
                assert(is_white(a[i]));
            } else if i < a.len() + t.len() {
                assert(s[i] == t[i - a.len()]);
                if i + 1 < a.len() + t.len() {
                    assert(s[i + 1] == t[i + 1 - a.len()]);
                } else {
                    assert(is_white(b[0]));
                }
            } else {
                assert(is_white(b[i - a.len() - t.len()]));
            }
        }
    }
    if is_without_arrow(s) {
        assert forall|i: int| 0 <= i < t.len() - 1 && #[trigger] t[i] == '-' implies t[i + 1]
            != '>' by {
            let j = i + a.len();
            assert(s[j] == t[i] && s[j + 1] == t[i + 1]);
        }
    }
}

// Texts.

/// More lines keep the nodes and the edges of those before.
pub proof fn law_lines_keep_what_was_read(lines: Seq<Seq<char>>, i: int, k: int)
    requires
        0 <= i <= k <= lines.len(),
        parsed(lines, k) is Ok,
    ensures
        parsed(lines, i) is Ok,
        parsed(lines, k)->Ok_0.is_consistent(),
        continues(parsed(lines, i)->Ok_0, parsed(lines, k)->Ok_0),
    decreases k,
{
    if k > 0 {
        law_lines_keep_what_was_read(lines, if i < k { i } else { k - 1 }, k - 1);
        let before = parsed(lines, k - 1)->Ok_0;
        match law_other_lines_are_refused(before, lines[k - 1]) {
            Line::Blank => {
                law_blank_line_says_nothing(before, lines[k - 1]);
            },
            Line::Node(w) => {
                let _ = law_node_line_declares_its_name(before, w);
            },
            Line::Edge(x, y) => {
                let _ = law_edge_line_joins_its_names(before, x, y);
            },
        }
    }
}

/// The first invalid line is the one that is reported.
pub proof fn law_first_invalid_line_is_reported(lines: Seq<Seq<char>>, k: int)
    requires
        0 <= k <= lines.len(),
        parsed(lines, k) is Err,
    ensures
        ({
            let fault = parsed(lines, k)->Err_0;
            &&& 0 <= fault.line < k
            &&& parsed(lines, fault.line) is Ok
            &&& parsed(lines, fault.line)->Ok_0.after_line(lines[fault.line]) == Result::<
                Parsed,
                ParseErrorKind,
            >::Err(fault.kind)
        }),
    decreases k,
{
    if k > 0 && parsed(lines, k - 1) is Err {
        law_first_invalid_line_is_reported(lines, k - 1);
    }
}

/// In the graph of a text, the edge of the line `x -> y` leads from the node named `x` to
/// the node named `y`.
pub proof fn law_edges_of_the_graph_join_their_names<NodeId: Identifier, EdgeId: Identifier>(
    graph: &OwningGraph<NodeId, EdgeId, &str, &str>,
    lines: Seq<Seq<char>>,
    k: int,
    x: Written,
    y: Written,
    id: EdgeId,
)
    requires
        0 <= k < lines.len(),
        is_edge_line(x, y),
        lines[k] == edge_line(x, y),
        parsed(lines, lines.len() as int) is Ok,
        is_graph_of(graph, parsed(lines, lines.len() as int)->Ok_0),
        id.spec_index() == parsed(lines, k)->Ok_0.edges.len(),
    ensures
        ({
            let names = parsed(lines, lines.len() as int)->Ok_0.names;
            &&& graph.edge_map().contains_key(id)
            &&& names[graph.edge_map()[id].from.spec_index() as int] == x.name
            &&& names[graph.edge_map()[id].to.spec_index() as int] == y.name
            &&& graph.edge_map()[id].data@ == match y.data {
                Some(b) => b.data,
                None => bare_edge_line(x, y),
            }
        }),
{
    let n = lines.len() as int;
    let p = parsed(lines, n)->Ok_0;
    law_lines_keep_what_was_read(lines, k, n);
    law_lines_keep_what_was_read(lines, k, k);
    law_lines_keep_what_was_read(lines, k + 1, n);
    law_lines_keep_what_was_read(lines, k + 1, k + 1);
    let before = parsed(lines, k)->Ok_0;
    let after = law_edge_line_joins_its_names(before, x, y);
    assert(parsed(lines, k + 1) == Result::<Parsed, Fault>::Ok(after));
    let i = before.edges.len() as int;
    assert(p.edges[i] == after.edges[i]);
    assert(after.edges[i] == after.edges.last());
    assert(p.names[after.edges[i].from] == after.names[after.edges[i].from]);
    assert(p.names[after.edges[i].to] == after.names[after.edges[i].to]);
    assert(graph.edge_map().contains_key(id));
}

/// The graph of a text has a node for each name, with the data of that name, and no others.
pub proof fn law_nodes_of_the_graph_have_their_data<NodeId: Identifier, EdgeId: Identifier>(
    graph: &OwningGraph<NodeId, EdgeId, &str, &str>,
    p: Parsed,
    id: NodeId,
)
    requires
        is_graph_of(graph, p),
    ensures
        graph.node_map().contains_key(id) <==> id.spec_index() < p.names.len(),
        graph.node_map().contains_key(id) ==> graph.node_map()[id].data@
            == p.data[id.spec_index() as int],
        graph.next_node() == p.names.len(),
        graph.next_edge() == p.edges.len(),
{
}

} // verus!
