//! A small subset of the DOT language as a list of declarations.
//!
//! Wrappers such as `digraph`, declarations separated by semicolons, node attributes and
//! edge chains are accepted; styling and labels are ignored.
use crate::text::{
    begins_with, copy_text, find_char, lines_of, next_line, push_text, range_begins_with,
    search_char, string_of, to_chars, trim, trim_range,
};
use vstd::prelude::*;

verus! {

// Comments.

/// The first place from `from` on where `a` and then `b` stand, or the end.
pub open spec fn find_two(s: Seq<char>, a: char, b: char, from: int) -> int
    decreases s.len() - from,
{
    if from + 1 >= s.len() {
        s.len() as int
    } else if s[from] == a && s[from + 1] == b {
        from
    } else {
        find_two(s, a, b, from + 1)
    }
}

/// A line up to a comment.
pub open spec fn without_comment(line: Seq<char>) -> Seq<char> {
    line.take(find_two(line, '/', '/', 0))
}

/// The first `k` texts with a line feed between them.
pub open spec fn joined_lines(lines: Seq<Seq<char>>, k: int) -> Seq<char>
    decreases k,
{
    if k <= 0 {
        Seq::empty()
    } else if k == 1 {
        lines[0]
    } else {
        joined_lines(lines, k - 1).push('\n') + lines[k - 1]
    }
}

/// The lines of a text without their comments.
pub open spec fn uncommented(lines: Seq<Seq<char>>) -> Seq<Seq<char>> {
    lines.map_values(|line: Seq<char>| without_comment(line))
}

/// A brace ends a statement as a semicolon does.
pub open spec fn unbraced(s: Seq<char>) -> Seq<char> {
    s.map_values(
        |c: char|
            if c == '{' || c == '}' {
                ';'
            } else {
                c
            },
    )
}

proof fn lemma_find_two(s: Seq<char>, a: char, b: char, from: int)
    requires
        0 <= from <= s.len(),
    ensures
        from <= find_two(s, a, b, from) <= s.len(),
        find_two(s, a, b, from) < s.len() ==> find_two(s, a, b, from) + 2 <= s.len(),
    decreases s.len() - from,
{
    if from + 1 < s.len() && !(s[from] == a && s[from + 1] == b) {
        lemma_find_two(s, a, b, from + 1);
    }
}

/// Where a range first holds two characters in a row, or its end.
fn search_two(text: &Vec<char>, lo: usize, hi: usize, a: char, b: char) -> (at: usize)
    requires
        lo <= hi <= text@.len(),
    ensures
        lo <= at <= hi,
        at - lo == find_two(text@.subrange(lo as int, hi as int), a, b, 0),
        at < hi ==> at + 2 <= hi,
{
    let ghost s = text@.subrange(lo as int, hi as int);
    let mut at: usize = lo;
    while at < hi && hi - at >= 2
        invariant
            lo <= at <= hi <= text@.len(),
            s == text@.subrange(lo as int, hi as int),
            find_two(s, a, b, at - lo) == find_two(s, a, b, 0),
        decreases hi - at,
    {
        assert(s[at - lo] == text@[at as int] && s[at - lo + 1] == text@[at + 1]);
        if text[at] == a && text[at + 1] == b {
            return at;
        }
        at = at + 1;
    }
    hi
}

/// The text without comments, and with semicolons in the place of braces.
fn strip(text: &Vec<char>) -> (out: Vec<char>)
    ensures
        out@ == unbraced(
            joined_lines(uncommented(lines_of(text@)), lines_of(text@).len() as int),
        ),
{
    let ghost lines = lines_of(text@);
    let ghost plain = uncommented(lines);
    let mut joined: Vec<char> = Vec::new();
    let mut pos: usize = 0;
    let mut first: bool = true;
    let ghost mut count: int = 0;
    proof {
        assert(text@.skip(0) =~= text@);
        assert(lines.take(0) + lines =~= lines);
    }
    while pos < text.len()
        invariant
            lines == lines_of(text@),
            plain == uncommented(lines),
            pos <= text@.len(),
            0 <= count <= lines.len(),
            lines == lines.take(count) + lines_of(text@.skip(pos as int)),
            joined@ == joined_lines(plain, count),
            first == (count == 0),
        decreases text@.len() - pos,
    {
        let (end, next) = next_line(text, pos);
        let ghost line = text@.subrange(pos as int, end as int);
        proof {
            assert(lines[count] == line);
            assert(lines.take(count + 1) =~= lines.take(count).push(line));
            assert(lines =~= lines.take(count + 1) + lines_of(text@.skip(next as int)));
            lemma_find_two(line, '/', '/', 0);
        }
        let cut: usize = search_two(text, pos, end, '/', '/');
        if !first {
            joined.push('\n');
        }
        let ghost start = joined@;
        for i in pos..cut
            invariant
                pos <= i,
                pos <= cut <= text@.len(),
                joined@ == start + text@.subrange(pos as int, i as int),
        {
            joined.push(text[i]);
            assert(joined@ =~= start + text@.subrange(pos as int, i + 1));
        }
        proof {
            assert(text@.subrange(pos as int, cut as int) =~= without_comment(line));
            assert(plain[count] == without_comment(line));
            if count == 0 {
                assert(joined@ =~= plain[0]);
            } else {
                assert(joined@ =~= joined_lines(plain, count).push('\n') + plain[count]);
            }
            count = count + 1;
        }
        first = false;
        pos = next;
    }
    proof {
        assert(lines_of(text@.skip(pos as int)) =~= Seq::<Seq<char>>::empty());
        assert(lines.take(count) + Seq::<Seq<char>>::empty() =~= lines.take(count));
        assert(count == lines.len());
    }
    let ghost all = joined@;
    let mut out: Vec<char> = Vec::new();
    for i in 0..joined.len()
        invariant
            all == joined@,
            out@ == unbraced(all).take(i as int),
    {
        let c: char = joined[i];
        out.push(
            if c == '{' || c == '}' {
                ';'
            } else {
                c
            },
        );
        assert(out@ =~= unbraced(all).take(i + 1));
    }
    assert(out@ =~= unbraced(all));
    out
}

// Statements.

/// The text up to an opening bracket, without white space around it.
pub open spec fn head_of(s: Seq<char>) -> Seq<char> {
    trim(s.take(find_char(s, '[', 0)))
}

/// The names of an edge chain.
pub open spec fn chain_names(s: Seq<char>) -> Seq<Seq<char>>
    decreases s.len(),
{
    let at = find_two(s, '-', '>', 0);
    if 0 <= at && at + 2 <= s.len() {
        let rest = chain_names(s.skip(at + 2));
        let name = head_of(s.take(at));
        if name.len() == 0 {
            rest
        } else {
            seq![name] + rest
        }
    } else {
        let name = head_of(s);
        if name.len() == 0 {
            Seq::empty()
        } else {
            seq![name]
        }
    }
}

/// The edges between neighbours of the first `k` names.
pub open spec fn chain_edges(names: Seq<Seq<char>>, k: int) -> Seq<Seq<char>>
    decreases k,
{
    if k <= 1 {
        Seq::empty()
    } else {
        chain_edges(names, k - 1).push(names[k - 2] + " -> "@ + names[k - 1])
    }
}

/// A statement that opens a graph.
pub open spec fn is_wrapper(s: Seq<char>) -> bool {
    ||| begins_with(s, "digraph"@)
    ||| begins_with(s, "graph"@)
    ||| begins_with(s, "strict"@)
}

/// A name that declares a node.
pub open spec fn is_node_name(name: Seq<char>) -> bool {
    &&& name.len() > 0
    &&& find_char(name, '=', 0) == name.len()
    &&& !begins_with(name, "subgraph"@)
    &&& name != "node"@
    &&& name != "edge"@
}

/// What a statement declares.
pub open spec fn declared(s: Seq<char>) -> Seq<Seq<char>> {
    let t = trim(s);
    if t.len() == 0 || is_wrapper(t) {
        Seq::empty()
    } else if find_two(t, '-', '>', 0) < t.len() {
        chain_edges(chain_names(t), chain_names(t).len() as int)
    } else if is_node_name(head_of(t)) {
        seq![head_of(t)]
    } else {
        Seq::empty()
    }
}

/// What the statements of a text declare, from a place on.
pub open spec fn declarations_from(s: Seq<char>) -> Seq<Seq<char>>
    decreases s.len(),
{
    let end = find_char(s, ';', 0);
    if 0 <= end < s.len() {
        declared(s.take(end)) + declarations_from(s.skip(end + 1))
    } else {
        declared(s)
    }
}

/// The declarations of a DOT text, one per line.
pub open spec fn normalized_dot(input: Seq<char>) -> Seq<char> {
    let lines = lines_of(input);
    let all = declarations_from(
        unbraced(joined_lines(uncommented(lines), lines.len() as int)),
    );
    joined_lines(all, all.len() as int)
}

pub open spec fn texts(list: Seq<Vec<char>>) -> Seq<Seq<char>> {
    list.map_values(|text: Vec<char>| text@)
}

/// The range of the head of a range.
fn head_range(text: &Vec<char>, lo: usize, hi: usize) -> (range: (usize, usize))
    requires
        lo <= hi <= text@.len(),
    ensures
        lo <= range.0 <= range.1 <= hi,
        text@.subrange(range.0 as int, range.1 as int) == head_of(
            text@.subrange(lo as int, hi as int),
        ),
{
    let cut: usize = search_char(text, lo, hi, '[');
    assert(text@.subrange(lo as int, hi as int).take(cut - lo) =~= text@.subrange(
        lo as int,
        cut as int,
    ));
    trim_range(text, lo, cut)
}

/// Reads the names of an edge chain.
fn read_names(text: &Vec<char>, lo: usize, hi: usize) -> (names: Vec<Vec<char>>)
    requires
        lo <= hi <= text@.len(),
    ensures
        texts(names@) == chain_names(text@.subrange(lo as int, hi as int)),
{
    let ghost goal = chain_names(text@.subrange(lo as int, hi as int));
    let mut names: Vec<Vec<char>> = Vec::new();
    let mut pos: usize = lo;
    assert(texts(names@) + goal =~= goal);
    loop
        invariant
            lo <= pos <= hi <= text@.len(),
            goal == chain_names(text@.subrange(lo as int, hi as int)),
            texts(names@) + chain_names(text@.subrange(pos as int, hi as int)) == goal,
        decreases hi - pos,
    {
        let ghost s = text@.subrange(pos as int, hi as int);
        let ghost before = texts(names@);
        proof {
            lemma_find_two(s, '-', '>', 0);
        }
        let at: usize = search_two(text, pos, hi, '-', '>');
        let (a, b) = head_range(text, pos, at);
        assert(s.take(at - pos) =~= text@.subrange(pos as int, at as int));
        if a < b {
            names.push(copy_text(text, a, b));
            assert(texts(names@) =~= before.push(text@.subrange(a as int, b as int)));
        }
        if at == hi {
            assert(s.take(at - pos) =~= s);
            assert(texts(names@) =~= goal);
            return names;
        }
        assert(s.skip(at - pos + 2) =~= text@.subrange(at + 2, hi as int));
        assert(texts(names@) + chain_names(text@.subrange(at + 2, hi as int)) =~= goal);
        pos = at + 2;
    }
}

/// Reads what a statement declares.
fn read_statement(text: &Vec<char>, lo: usize, hi: usize, out: &mut Vec<Vec<char>>)
    requires
        lo <= hi <= text@.len(),
    ensures
        texts(final(out)@) == texts(old(out)@) + declared(text@.subrange(lo as int, hi as int)),
{
    let ghost start = texts(out@);
    let (a, b) = trim_range(text, lo, hi);
    let ghost t = text@.subrange(a as int, b as int);
    assert(start + Seq::<Seq<char>>::empty() =~= start);
    if a == b || range_begins_with(text, a, b, "digraph") || range_begins_with(text, a, b, "graph")
        || range_begins_with(text, a, b, "strict") {
        return;
    }
    if search_two(text, a, b, '-', '>') < b {
        let names = read_names(text, a, b);
        let ghost all = chain_names(t);
        assert(texts(names@).len() == names@.len());
        assert(start + chain_edges(all, 1) =~= start);
        let mut k: usize = 1;
        while k < names.len()
            invariant
                1 <= k,
                k <= names@.len() || k == 1,
                all == texts(names@),
                texts(out@) == start + chain_edges(all, k as int),
            decreases names@.len() - k,
        {
            let ghost before = texts(out@);
            let mut line: Vec<char> = Vec::new();
            push_list(&mut line, &names[k - 1]);
            push_text(&mut line, " -> ");
            push_list(&mut line, &names[k]);
            proof {
                assert(all[k - 1] == names@[k - 1]@ && all[k as int] == names@[k as int]@);
                assert(Seq::<char>::empty() + all[k - 1] =~= all[k - 1]);
                assert(line@ =~= all[k - 1] + " -> "@ + all[k as int]);
            }
            out.push(line);
            assert(texts(out@) =~= before.push(all[k - 1] + " -> "@ + all[k as int]));
            assert(texts(out@) =~= start + chain_edges(all, k + 1));
            k = k + 1;
        }
        assert(texts(out@) == start + chain_edges(all, all.len() as int)) by {
            if all.len() == 0 {
                assert(chain_edges(all, 0) =~= chain_edges(all, 1));
            }
        }
        return;
    }
    let (c, d) = head_range(text, a, b);
    let ghost name = text@.subrange(c as int, d as int);
    let equals: usize = search_char(text, c, d, '=');
    if c < d && equals == d && !range_begins_with(text, c, d, "subgraph") && !range_is(
        text,
        c,
        d,
        "node",
    ) && !range_is(text, c, d, "edge") {
        out.push(copy_text(text, c, d));
        assert(texts(out@) =~= start + seq![name]);
    }
}

/// Whether a range of a text is a string.
fn range_is(text: &Vec<char>, lo: usize, hi: usize, word: &str) -> (b: bool)
    requires
        lo <= hi <= text@.len(),
    ensures
        b == (text@.subrange(lo as int, hi as int) == word@),
{
    let ghost s = text@.subrange(lo as int, hi as int);
    let n: usize = to_chars(word).len();
    if hi - lo != n {
        return false;
    }
    let b = range_begins_with(text, lo, hi, word);
    assert(s.take(word@.len() as int) =~= s);
    b
}

fn push_list(list: &mut Vec<char>, more: &Vec<char>)
    ensures
        final(list)@ == old(list)@ + more@,
{
    let ghost start = list@;
    for i in 0..more.len()
        invariant
            list@ == start + more@.take(i as int),
    {
        list.push(more[i]);
        assert(list@ =~= start + more@.take(i + 1));
    }
    assert(more@.take(more@.len() as int) =~= more@);
}

/// Turns a DOT text into declarations, one per line.
pub fn normalize_dot(input: &str) -> (output: String)
    ensures
        output@ == normalized_dot(input@),
{
    let source = to_chars(input);
    let text = strip(&source);
    let mut out: Vec<Vec<char>> = Vec::new();
    let ghost goal = declarations_from(text@);
    let mut pos: usize = 0;
    let mut more: bool = true;
    assert(text@.skip(0) =~= text@);
    assert(texts(out@) + goal =~= goal);
    while more
        invariant
            pos <= text@.len(),
            goal == declarations_from(text@),
            more ==> texts(out@) + declarations_from(text@.skip(pos as int)) == goal,
            !more ==> texts(out@) == goal,
        decreases text@.len() - pos + if more {
            1int
        } else {
            0
        },
    {
        let ghost s = text@.skip(pos as int);
        let ghost before = texts(out@);
        assert(s =~= text@.subrange(pos as int, text@.len() as int));
        let end: usize = search_char(&text, pos, text.len(), ';');
        read_statement(&text, pos, end, &mut out);
        assert(s.take(end - pos) =~= text@.subrange(pos as int, end as int));
        if end == text.len() {
            assert(s.take(end - pos) =~= s);
            more = false;
        } else {
            assert(s.skip(end - pos + 1) =~= text@.skip(end + 1));
            assert(texts(out@) + declarations_from(text@.skip(end + 1)) =~= before + (declared(
                s.take(end - pos),
            ) + declarations_from(text@.skip(end + 1))));
            pos = end + 1;
        }
    }
    let mut joined: Vec<char> = Vec::new();
    for k in 0..out.len()
        invariant
            goal == texts(out@),
            joined@ == joined_lines(goal, k as int),
    {
        let ghost before = joined@;
        if k > 0 {
            joined.push('\n');
        }
        push_list(&mut joined, &out[k]);
        proof {
            assert(goal[k as int] == out@[k as int]@);
            if k == 0 {
                assert(joined@ =~= goal[0]);
            }
        }
    }
    string_of(joined)
}

} // verus!
