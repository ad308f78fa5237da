//! What holds of the declarations that a DOT text makes.
use crate::text::{
    find_char, is_bare, is_blank, is_line, is_white, law_first_place,
    law_lines_are_split_at_line_feeds, law_trim_takes_padding, lines_of,
};
use crate::triskel::dot::{
    chain_edges, chain_names, declarations_from, declared, find_two, head_of, is_wrapper,
    joined_lines, normalized_dot, unbraced, uncommented, without_comment,
};
use vstd::prelude::*;

verus! {

/// A name as a statement writes it: with white space around it, and perhaps with
/// attributes behind an opening bracket.
pub struct Mention {
    pub before: Seq<char>,
    pub name: Seq<char>,
    pub after: Seq<char>,
    pub attributes: Seq<char>,
}

/// No arrow stands in a text.
pub open spec fn has_no_arrow(s: Seq<char>) -> bool {
    forall|i: int| 0 <= i < s.len() - 1 && #[trigger] s[i] == '-' ==> s[i + 1] != '>'
}

impl Mention {
    pub open spec fn text(self) -> Seq<char> {
        self.before + self.name + self.after + self.attributes
    }

    pub open spec fn is_valid(self) -> bool {
        &&& is_blank(self.before)
        &&& is_blank(self.after)
        &&& self.name.len() > 0
        &&& is_bare(self.name)
        &&& !self.name.contains('[')
        &&& self.attributes.len() > 0 ==> self.attributes[0] == '['
        &&& has_no_arrow(self.text())
    }
}

/// The mentions with arrows between them.
pub open spec fn chain_text(chain: Seq<Mention>) -> Seq<char>
    decreases chain.len(),
{
    if chain.len() == 0 {
        Seq::empty()
    } else if chain.len() == 1 {
        chain[0].text()
    } else {
        chain[0].text() + seq!['-', '>'] + chain_text(chain.skip(1))
    }
}

pub open spec fn are_valid(chain: Seq<Mention>) -> bool {
    forall|i: int| 0 <= i < chain.len() ==> (#[trigger] chain[i]).is_valid()
}

/// The first place of two characters: they stand there, and nowhere before.
pub proof fn law_first_pair(s: Seq<char>, a: char, b: char, from: int)
    requires
        0 <= from <= s.len(),
    ensures
        from <= find_two(s, a, b, from) <= s.len(),
        find_two(s, a, b, from) < s.len() ==> find_two(s, a, b, from) + 1 < s.len() && s[find_two(
            s,
            a,
            b,
            from,
        )] == a && s[find_two(s, a, b, from) + 1] == b,
        forall|i: int|
            from <= i < find_two(s, a, b, from) && i + 1 < s.len() && #[trigger] s[i] == a ==> s[i
                + 1] != b,
    decreases s.len() - from,
{
    if from + 1 < s.len() && !(s[from] == a && s[from + 1] == b) {
        law_first_pair(s, a, b, from + 1);
    }
}

/// Behind a text without arrows the first arrow is the one that follows.
proof fn lemma_arrow_behind(s: Seq<char>, rest: Seq<char>)
    requires
        has_no_arrow(s),
    ensures
        find_two(s + seq!['-', '>'] + rest, '-', '>', 0) == s.len(),
{
    let all = s + seq!['-', '>'] + rest;
    law_first_pair(all, '-', '>', 0);
    let at = find_two(all, '-', '>', 0);
    assert(all[s.len() as int] == '-' && all[s.len() as int + 1] == '>');
    if at < s.len() {
        assert(all[at] == s[at]);
        if at + 1 < s.len() {
            assert(all[at + 1] == s[at + 1]);
        }
    }
}

proof fn lemma_no_arrow(s: Seq<char>)
    requires
        has_no_arrow(s),
    ensures
        find_two(s, '-', '>', 0) == s.len(),
{
    law_first_pair(s, '-', '>', 0);
}

/// The head of a mention is its name.
pub proof fn law_head_is_the_name(m: Mention)
    requires
        m.is_valid(),
    ensures
        head_of(m.text()) == m.name,
{
    let s = m.text();
    let plain = m.before + m.name + m.after;
    let at = find_char(s, '[', 0);
    law_first_place(s, '[', 0);
    assert forall|i: int| 0 <= i < plain.len() implies #[trigger] plain[i] != '[' by {
        if i < m.before.len() {
            assert(is_white(m.before[i]));
        } else if i < m.before.len() + m.name.len() {
            assert(m.name.contains(m.name[i - m.before.len()]));
        } else {
            assert(is_white(m.after[i - m.before.len() - m.name.len()]));
        }
    }
    assert(at >= plain.len()) by {
        if at < plain.len() {
            assert(s[at] == plain[at]);
        }
    }
    assert(at <= plain.len()) by {
        if m.attributes.len() > 0 {
            assert(s[plain.len() as int] == '[');
        }
    }
    assert(s.take(at) =~= plain);
    law_trim_takes_padding(m.before, m.name, m.after);
}

/// The names of a chain are those that it mentions, in their order.
pub proof fn law_chain_mentions_its_names(chain: Seq<Mention>)
    requires
        are_valid(chain),
        chain.len() > 0,
    ensures
        chain_names(chain_text(chain)) == chain.map_values(|m: Mention| m.name),
    decreases chain.len(),
{
    let s = chain_text(chain);
    let names = chain.map_values(|m: Mention| m.name);
    let first = chain[0].text();
    assert(chain[0].is_valid());
    law_head_is_the_name(chain[0]);
    if chain.len() == 1 {
        lemma_no_arrow(first);
        assert(names =~= seq![chain[0].name]);
    } else {
        let rest = chain.skip(1);
        assert forall|i: int| 0 <= i < rest.len() implies (#[trigger] rest[i]).is_valid() by {
            assert(chain[i + 1].is_valid());
        }
        lemma_arrow_behind(first, chain_text(rest));
        law_chain_mentions_its_names(rest);
        assert(s.take(first.len() as int) =~= first);
        assert(s.skip((first.len() + 2) as int) =~= chain_text(rest));
        assert(names =~= seq![chain[0].name] + rest.map_values(|m: Mention| m.name));
    }
}

/// One edge less than names: the i-th leads from the i-th name to the one behind it, so
/// that each inner name is the target of one edge and the source of the next.
pub proof fn law_chain_edges_join_neighbours(names: Seq<Seq<char>>, k: int)
    requires
        1 <= k <= names.len(),
    ensures
        chain_edges(names, k).len() == k - 1,
        forall|i: int|
            0 <= i < k - 1 ==> #[trigger] chain_edges(names, k)[i] == names[i] + " -> "@ + names[i
                + 1],
    decreases k,
{
    if k > 1 {
        law_chain_edges_join_neighbours(names, k - 1);
        let before = chain_edges(names, k - 1);
        assert forall|i: int| 0 <= i < k - 1 implies #[trigger] chain_edges(names, k)[i] == names[i]
            + " -> "@ + names[i + 1] by {
            if i < k - 2 {
                assert(chain_edges(names, k)[i] == before[i]);
            }
        }
    }
}

/// A statement that writes names with arrows between them declares one edge from each name
/// to the next, and nothing else.
pub proof fn law_chain_statement_declares_its_edges(
    before: Seq<char>,
    chain: Seq<Mention>,
    after: Seq<char>,
)
    requires
        is_blank(before),
        is_blank(after),
        are_valid(chain),
        chain.len() >= 2,
        is_bare(chain_text(chain)),
        !is_wrapper(chain_text(chain)),
    ensures
        declared(before + chain_text(chain) + after).len() == chain.len() - 1,
        forall|i: int|
            0 <= i < chain.len() - 1 ==> #[trigger] declared(before + chain_text(chain) + after)[i]
                == chain[i].name + " -> "@ + chain[i + 1].name,
{
    let t = chain_text(chain);
    let names = chain.map_values(|m: Mention| m.name);
    law_trim_takes_padding(before, t, after);
    law_chain_mentions_its_names(chain);
    law_chain_edges_join_neighbours(names, names.len() as int);
    assert(chain[0].is_valid());
    lemma_arrow_behind(chain[0].text(), chain_text(chain.skip(1)));
    let d = declared(before + t + after);
    assert(d == chain_edges(names, names.len() as int));
    assert forall|i: int| 0 <= i < chain.len() - 1 implies #[trigger] d[i] == chain[i].name
        + " -> "@ + chain[i + 1].name by {
        assert(names[i] == chain[i].name && names[i + 1] == chain[i + 1].name);
    }
}

/// A statement without an arrow declares the node that it mentions, unless it sets an
/// attribute, opens a subgraph, or styles nodes or edges.
pub proof fn law_node_statement_declares_its_name(before: Seq<char>, m: Mention, after: Seq<char>)
    requires
        is_blank(before),
        is_blank(after),
        m.is_valid(),
        is_bare(m.text()),
        !is_wrapper(m.text()),
    ensures
        declared(before + m.text() + after) == if m.name.contains('=')
            || "subgraph"@.is_prefix_of(m.name) || m.name == "node"@ || m.name == "edge"@ {
            Seq::<Seq<char>>::empty()
        } else {
            seq![m.name]
        },
{
    let t = m.text();
    law_trim_takes_padding(before, t, after);
    law_head_is_the_name(m);
    lemma_no_arrow(t);
    assert(t[m.before.len() as int] == m.name[0]);
    law_first_place(m.name, '=', 0);
    let at = find_char(m.name, '=', 0);
    assert(m.name.contains('=') == (at < m.name.len())) by {
        if m.name.contains('=') {
            let i = choose|i: int| 0 <= i < m.name.len() && m.name[i] == '=';
            assert(m.name[i] == '=');
        }
    }
    let word = "subgraph"@;
    assert(word.is_prefix_of(m.name) == crate::text::begins_with(m.name, word)) by {
        if word.is_prefix_of(m.name) {
            assert(m.name.take(word.len() as int) =~= word);
        }
    }
}

/// A statement that opens a graph, and one of white space only, declares nothing.
pub proof fn law_wrappers_declare_nothing(before: Seq<char>, t: Seq<char>, after: Seq<char>)
    requires
        is_blank(before),
        is_blank(after),
        is_bare(t),
        t.len() == 0 || "digraph"@.is_prefix_of(t) || "graph"@.is_prefix_of(t)
            || "strict"@.is_prefix_of(t),
    ensures
        declared(before + t + after).len() == 0,
{
    law_trim_takes_padding(before, t, after);
    if "digraph"@.is_prefix_of(t) {
        assert(t.take("digraph"@.len() as int) =~= "digraph"@);
    }
    if "graph"@.is_prefix_of(t) {
        assert(t.take("graph"@.len() as int) =~= "graph"@);
    }
    if "strict"@.is_prefix_of(t) {
        assert(t.take("strict"@.len() as int) =~= "strict"@);
    }
}

/// A semicolon parts statements: what stands on either side is read as if it stood alone.
pub proof fn law_statements_are_read_in_turn(a: Seq<char>, b: Seq<char>)
    ensures
        declarations_from(a.push(';') + b) == declarations_from(a) + declarations_from(b),
    decreases a.len(),
{
    let s = a.push(';') + b;
    let end = find_char(a, ';', 0);
    law_first_place(a, ';', 0);
    law_first_place(s, ';', 0);
    let at = find_char(s, ';', 0);
    assert(s[a.len() as int] == ';');
    assert(at == end) by {
        if at < end {
            assert(s[at] == a[at]);
        }
        if end < at {
            if end < a.len() {
                assert(s[end] == a[end]);
            }
        }
    }
    if end < a.len() {
        law_statements_are_read_in_turn(a.skip(end + 1), b);
        assert(s.take(at) =~= a.take(end));
        assert(s.skip(at + 1) =~= a.skip(end + 1).push(';') + b);
        assert(declared(a.take(end)) + (declarations_from(a.skip(end + 1)) + declarations_from(b))
            =~= declarations_from(a) + declarations_from(b));
    } else {
        assert(s.take(at) =~= a);
        assert(s.skip(at + 1) =~= b);
    }
}

/// A text without a semicolon is one statement.
pub proof fn law_one_statement(s: Seq<char>)
    requires
        !s.contains(';'),
    ensures
        declarations_from(s) == declared(s),
{
    law_first_place(s, ';', 0);
    let end = find_char(s, ';', 0);
    if end < s.len() {
        assert(s.contains(s[end]));
    }
}

// Lines.

/// Texts put on lines of their own are the lines of the result.
pub proof fn law_joined_lines_are_lines(list: Seq<Seq<char>>, k: int)
    requires
        0 <= k <= list.len(),
        forall|i: int|
            0 <= i < k ==> is_line(#[trigger] list[i]) && list[i].len() > 0 && list[i].last()
                != '\r',
    ensures
        lines_of(joined_lines(list, k)) == list.take(k),
    decreases k,
{
    if k == 0 {
        law_lines_are_split_at_line_feeds(Seq::empty(), Seq::empty());
        assert(lines_of(joined_lines(list, k)) =~= list.take(k));
    } else {
        lemma_joined_then(list, k, Seq::empty());
        assert(joined_lines(list, k) + Seq::<char>::empty() =~= joined_lines(list, k));
        law_lines_are_split_at_line_feeds(list[k - 1], Seq::empty());
        lemma_joined_before(list, k);
        if k == 1 {
            assert(list.take(1) =~= seq![list[0]]);
        } else {
            lemma_joined_then(list, k - 1, list[k - 1]);
            assert(list.take(k) =~= list.take(k - 1) + seq![list[k - 1]]);
        }
    }
}

proof fn lemma_joined_before(list: Seq<Seq<char>>, k: int)
    requires
        1 < k <= list.len() || k == 1,
    ensures
        k > 1 ==> joined_lines(list, k) == joined_lines(list, k - 1).push('\n') + list[k - 1],
        k == 1 ==> joined_lines(list, k) == list[0],
{
}

proof fn lemma_joined_then(list: Seq<Seq<char>>, k: int, rest: Seq<char>)
    requires
        1 <= k <= list.len(),
        forall|i: int|
            0 <= i < k ==> is_line(#[trigger] list[i]) && list[i].len() > 0 && list[i].last()
                != '\r',
    ensures
        lines_of(joined_lines(list, k).push('\n') + rest) == list.take(k) + lines_of(rest),
    decreases k,
{
    let line = list[k - 1];
    assert(is_line(line));
    law_lines_are_split_at_line_feeds(line, rest);
    if k == 1 {
        assert(list.take(1) =~= seq![line]);
    } else {
        let more = line.push('\n') + rest;
        lemma_joined_then(list, k - 1, more);
        assert(joined_lines(list, k).push('\n') + rest =~= joined_lines(list, k - 1).push('\n')
            + more);
        assert(list.take(k - 1) + (seq![line] + lines_of(rest)) =~= list.take(k) + lines_of(rest));
    }
}

/// A text that ends with a line feed is split apart from what follows.
proof fn lemma_lines_in_turn(a: Seq<char>, b: Seq<char>)
    requires
        a.len() > 0 ==> a.last() == '\n',
    ensures
        lines_of(a + b) == lines_of(a) + lines_of(b),
    decreases a.len(),
{
    if a.len() == 0 {
        assert(a + b =~= b);
        assert(lines_of(a) + lines_of(b) =~= lines_of(b));
    } else {
        let end = find_char(a, '\n', 0);
        law_first_place(a, '\n', 0);
        assert(a[a.len() - 1] == '\n');
        let s = a + b;
        law_first_place(s, '\n', 0);
        let at = find_char(s, '\n', 0);
        assert(s[end] == a[end]);
        assert(at == end) by {
            if at < end {
                assert(s[at] == a[at]);
            }
        }
        let rest = a.skip(end + 1);
        if rest.len() > 0 {
            assert(rest.last() == a.last());
        }
        lemma_lines_in_turn(rest, b);
        assert(s.skip(at + 1) =~= rest + b);
        assert(s.take(at) =~= a.take(end));
        let first = seq![crate::text::without_return(a.take(end))];
        assert(first + (lines_of(rest) + lines_of(b)) =~= first + lines_of(rest) + lines_of(b));
    }
}

/// A comment changes nothing, whatever it says: it reaches from two slashes to the end of
/// its line.
#[verifier::rlimit(60)]
pub proof fn law_comments_are_ignored(
    above: Seq<char>,
    line: Seq<char>,
    comment: Seq<char>,
    below: Seq<char>,
)
    requires
        above.len() > 0 ==> above.last() == '\n',
        is_line(line),
        is_line(comment),
        line.len() > 0 ==> line.last() != '\r' && line.last() != '/',
    ensures
        normalized_dot(above + (line + "//"@ + comment).push('\n') + below) == normalized_dot(
            above + line.push('\n') + below,
        ),
{
    reveal_strlit("//");
    let noted = line + "//"@ + comment;
    let (x, y) = (above + noted.push('\n') + below, above + line.push('\n') + below);
    let short = crate::text::without_return(noted);
    assert(short.len() >= line.len() + 1);
    assert(lines_of(noted.push('\n') + below) == seq![short] + lines_of(below)) by {
        assert(is_line(noted)) by {
            assert forall|i: int| 0 <= i < noted.len() implies #[trigger] noted[i] != '\n' by {
                if i < line.len() {
                    assert(noted[i] == line[i]);
                } else if i >= line.len() + 2 {
                    assert(noted[i] == comment[i - line.len() - 2]);
                }
            }
        }
        if noted.last() == '\r' {
            assert forall|i: int| 0 <= i < short.len() implies #[trigger] short[i] != '\n' by {
                assert(short[i] == noted[i]);
            }
            law_lines_are_split_at_line_feeds(short, below);
            assert(noted =~= short.push('\r'));
        } else {
            law_lines_are_split_at_line_feeds(noted, below);
        }
    }
    law_lines_are_split_at_line_feeds(line, below);
    lemma_lines_in_turn(above, noted.push('\n') + below);
    lemma_lines_in_turn(above, line.push('\n') + below);
    assert(x =~= above + (noted.push('\n') + below));
    assert(y =~= above + (line.push('\n') + below));
    let (p, q) = (lines_of(x), lines_of(y));
    let n = lines_of(above).len() as int;
    assert(p[n] == short && q[n] == line);
    assert(without_comment(short) == without_comment(line)) by {
        assert(short.take(line.len() as int) =~= line);
        lemma_cut(line, short);
    }
    assert(uncommented(p) =~= uncommented(q)) by {
        assert forall|i: int| 0 <= i < p.len() implies uncommented(p)[i] == uncommented(q)[i] by {
            if i != n {
                assert(p[i] == q[i]);
            }
        }
    }
}

/// The same is cut from a line with a comment as from the line before the slashes.
proof fn lemma_cut(line: Seq<char>, noted: Seq<char>)
    requires
        noted.len() >= line.len() + 2,
        noted.take(line.len() as int) == line,
        noted[line.len() as int] == '/',
        noted[line.len() as int + 1] == '/',
        line.len() > 0 ==> line.last() != '/',
    ensures
        without_comment(noted) == without_comment(line),
{
    let (a, b) = (find_two(line, '/', '/', 0), find_two(noted, '/', '/', 0));
    law_first_pair(line, '/', '/', 0);
    law_first_pair(noted, '/', '/', 0);
    assert forall|i: int| 0 <= i < line.len() implies noted[i] == line[i] by {
        assert(noted.take(line.len() as int)[i] == noted[i]);
    }
    assert(a == b) by {
        if b < a {
            if b + 1 < line.len() {
                assert(noted[b] == line[b] && noted[b + 1] == line[b + 1]);
            }
        } else if a < b {
            if a < line.len() {
                assert(noted[a] == line[a] && noted[a + 1] == line[a + 1]);
            }
        }
    }
    assert(noted.take(b) =~= line.take(a));
}

/// A text of one line without comments, braces and semicolons declares what it declares as
/// a statement, each on a line of its own.
pub proof fn law_plain_line_is_a_statement(s: Seq<char>)
    requires
        is_line(s),
        s.len() > 0,
        !s.contains(';') && !s.contains('{') && !s.contains('}'),
        forall|i: int| 0 <= i < s.len() - 1 && #[trigger] s[i] == '/' ==> s[i + 1] != '/',
    ensures
        normalized_dot(s) == joined_lines(declared(s), declared(s).len() as int),
{
    law_lines_are_split_at_line_feeds(s, Seq::empty());
    law_first_pair(s, '/', '/', 0);
    assert(without_comment(s) =~= s);
    let lines = lines_of(s);
    assert(uncommented(lines)[0] == s);
    assert(joined_lines(uncommented(lines), 1) == s);
    assert(unbraced(s) =~= s) by {
        assert forall|i: int| 0 <= i < s.len() implies #[trigger] unbraced(s)[i] == s[i] by {
            assert(s.contains(s[i]));
        }
    }
    law_one_statement(s);
}

/// Braces end statements as semicolons do, and all else is kept.
pub proof fn law_braces_are_semicolons(s: Seq<char>, i: int)
    requires
        0 <= i < s.len(),
    ensures
        unbraced(s).len() == s.len(),
        s[i] == '{' || s[i] == '}' ==> unbraced(s)[i] == ';',
        s[i] != '{' && s[i] != '}' ==> unbraced(s)[i] == s[i],
{
}

} // verus!
