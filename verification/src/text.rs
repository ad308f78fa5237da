//! Characters of strings.
use vstd::prelude::*;

verus! {

/// Whether a character has the Unicode property `White_Space`.
pub open spec fn is_white(c: char) -> bool {
    ||| 0x09 <= c as u32 <= 0x0d
    ||| c as u32 == 0x20
    ||| c as u32 == 0x85
    ||| c as u32 == 0xa0
    ||| c as u32 == 0x1680
    ||| 0x2000 <= c as u32 <= 0x200a
    ||| c as u32 == 0x2028
    ||| c as u32 == 0x2029
    ||| c as u32 == 0x202f
    ||| c as u32 == 0x205f
    ||| c as u32 == 0x3000
}

/// Whether a character is white space.
pub(crate) fn char_is_white(c: char) -> (white: bool)
    ensures
        white == is_white(c),
{
    let code: u32 = c as u32;
    (0x09 <= code && code <= 0x0d) || code == 0x20 || code == 0x85 || code == 0xa0 || code
        == 0x1680 || (0x2000 <= code && code <= 0x200a) || code == 0x2028 || code == 0x2029 || code
        == 0x202f || code == 0x205f || code == 0x3000
}

/// The characters of a string.
pub(crate) fn to_chars(s: &str) -> (list: Vec<char>)
    ensures
        list@ == s@,
{
    let mut list: Vec<char> = Vec::new();
    for c in it: s.chars()
        invariant
            list@ == s@.take(it.index@),
            it.seq() == s@,
    {
        list.push(c);
        assert(list@ =~= s@.take(it.index@ + 1));
    }
    assert(list@ =~= s@);
    list
}

/// Whether two strings have the same characters.
pub(crate) fn same_text(a: &str, b: &str) -> (same: bool)
    ensures
        same == (a@ == b@),
{
    let (x, y) = (to_chars(a), to_chars(b));
    if x.len() != y.len() {
        return false;
    }
    for i in 0..x.len()
        invariant
            x@ == a@,
            y@ == b@,
            x@.len() == y@.len(),
            x@.take(i as int) == y@.take(i as int),
    {
        if x[i] != y[i] {
            return false;
        }
        assert(x@.take(i + 1) =~= x@.take(i as int).push(x@[i as int]));
        assert(y@.take(i + 1) =~= y@.take(i as int).push(y@[i as int]));
    }
    assert(x@.take(x@.len() as int) =~= x@);
    assert(y@.take(y@.len() as int) =~= y@);
    true
}

/// The text without white space at its start.
pub open spec fn trim_start(s: Seq<char>) -> Seq<char>
    decreases s.len(),
{
    if s.len() > 0 && is_white(s[0]) {
        trim_start(s.skip(1))
    } else {
        s
    }
}

/// The text without white space at its end.
pub open spec fn trim_end(s: Seq<char>) -> Seq<char>
    decreases s.len(),
{
    if s.len() > 0 && is_white(s.last()) {
        trim_end(s.drop_last())
    } else {
        s
    }
}

/// The text without white space around it.
pub open spec fn trim(s: Seq<char>) -> Seq<char> {
    trim_end(trim_start(s))
}

/// The range of a text without white space around it.
pub(crate) fn trim_range(text: &Vec<char>, lo: usize, hi: usize) -> (range: (usize, usize))
    requires
        lo <= hi <= text@.len(),
    ensures
        lo <= range.0 <= range.1 <= hi,
        text@.subrange(range.0 as int, range.1 as int) == trim(
            text@.subrange(lo as int, hi as int),
        ),
{
    let mut a: usize = lo;
    while a < hi && char_is_white(text[a])
        invariant
            lo <= a <= hi <= text@.len(),
            trim_start(text@.subrange(a as int, hi as int)) == trim_start(
                text@.subrange(lo as int, hi as int),
            ),
        decreases hi - a,
    {
        assert(text@.subrange(a as int, hi as int).skip(1) =~= text@.subrange(a + 1, hi as int));
        a = a + 1;
    }
    let ghost rest = text@.subrange(a as int, hi as int);
    assert(trim_start(rest) == rest);
    let mut b: usize = hi;
    while b > a && char_is_white(text[b - 1])
        invariant
            a <= b <= hi <= text@.len(),
            trim_end(text@.subrange(a as int, b as int)) == trim_end(rest),
        decreases b - a,
    {
        assert(text@.subrange(a as int, b as int).drop_last() =~= text@.subrange(a as int, b - 1));
        b = b - 1;
    }
    (a, b)
}

/// The first place from `from` on where `needle` stands, or the end of the text.
pub open spec fn find_char(s: Seq<char>, needle: char, from: int) -> int
    decreases s.len() - from,
{
    if from >= s.len() {
        s.len() as int
    } else if s[from] == needle {
        from
    } else {
        find_char(s, needle, from + 1)
    }
}

/// The lines of a text. A line ends with a line feed, or with a carriage return and a line
/// feed; the last one may end without either.
pub open spec fn lines_of(s: Seq<char>) -> Seq<Seq<char>>
    decreases s.len(),
{
    let end = find_char(s, '\n', 0);
    if s.len() == 0 {
        Seq::empty()
    } else if end >= s.len() || end < 0 {
        seq![s]
    } else {
        seq![without_return(s.take(end))] + lines_of(s.skip(end + 1))
    }
}

/// The line without a carriage return at its end.
pub open spec fn without_return(s: Seq<char>) -> Seq<char> {
    if s.len() > 0 && s.last() == '\r' {
        s.drop_last()
    } else {
        s
    }
}

proof fn lemma_find_unique(s: Seq<char>, needle: char, from: int, at: int)
    requires
        0 <= from <= at <= s.len(),
        forall|i: int| from <= i < at ==> #[trigger] s[i] != needle,
        at < s.len() ==> s[at] == needle,
    ensures
        find_char(s, needle, from) == at,
    decreases s.len() - from,
{
    if from < at {
        lemma_find_unique(s, needle, from + 1, at);
    }
}

/// The range of the line that starts at `pos`, and where the next line starts.
pub(crate) fn next_line(text: &Vec<char>, pos: usize) -> (line: (usize, usize))
    requires
        pos < text@.len(),
    ensures
        pos <= line.0 <= line.1 <= text@.len(),
        pos < line.1,
        lines_of(text@.skip(pos as int)) == seq![text@.subrange(pos as int, line.0 as int)]
            + lines_of(text@.skip(line.1 as int)),
{
    let mut end: usize = pos;
    while end < text.len() && text[end] != '\n'
        invariant
            pos <= end <= text@.len(),
            forall|i: int| pos <= i < end ==> #[trigger] text@[i] != '\n',
        decreases text@.len() - end,
    {
        end = end + 1;
    }
    let ghost s = text@.skip(pos as int);
    proof {
        assert forall|i: int| 0 <= i < end - pos implies #[trigger] s[i] != '\n' by {
            assert(text@[pos + i] != '\n');
        }
        lemma_find_unique(s, '\n', 0, end - pos);
    }
    if end == text.len() {
        assert(lines_of(text@.skip(end as int)) =~= Seq::<Seq<char>>::empty());
        assert(s =~= text@.subrange(pos as int, end as int));
        assert(seq![s] + Seq::<Seq<char>>::empty() =~= seq![s]);
        return (end, end);
    }
    assert(s.skip(end - pos + 1) =~= text@.skip(end + 1));
    assert(s.take(end - pos) =~= text@.subrange(pos as int, end as int));
    if end > pos && text[end - 1] == '\r' {
        assert(s.take(end - pos).drop_last() =~= text@.subrange(pos as int, end - 1));
        (end - 1, end + 1)
    } else {
        (end, end + 1)
    }
}

/// `String::from_iter` over characters: the string of these characters.
#[verifier::external_body]
pub(crate) fn string_of(list: Vec<char>) -> (s: String)
    ensures
        s@ == list@,
{
    String::from_iter(list)
}

/// Appends the characters of a string.
pub(crate) fn push_text(list: &mut Vec<char>, s: &str)
    ensures
        final(list)@ == old(list)@ + s@,
{
    let ghost start = list@;
    let more = to_chars(s);
    for i in 0..more.len()
        invariant
            more@ == s@,
            list@ == start + s@.take(i as int),
    {
        list.push(more[i]);
        assert(list@ =~= start + s@.take(i + 1));
    }
    assert(s@.take(s@.len() as int) =~= s@);
}

/// A copy of the range `lo..hi` of a text.
pub(crate) fn copy_text(text: &Vec<char>, lo: usize, hi: usize) -> (copy: Vec<char>)
    requires
        lo <= hi <= text@.len(),
    ensures
        copy@ == text@.subrange(lo as int, hi as int),
{
    let mut copy: Vec<char> = Vec::new();
    for i in lo..hi
        invariant
            lo <= i,
            hi <= text@.len(),
            copy@ == text@.subrange(lo as int, i as int),
    {
        copy.push(text[i]);
        assert(copy@ =~= text@.subrange(lo as int, i + 1));
    }
    copy
}

/// The text begins with `prefix`.
pub open spec fn begins_with(s: Seq<char>, prefix: Seq<char>) -> bool {
    prefix.len() <= s.len() && s.take(prefix.len() as int) == prefix
}

/// Whether a range of a text begins with a string.
pub(crate) fn range_begins_with(text: &Vec<char>, lo: usize, hi: usize, prefix: &str) -> (b: bool)
    requires
        lo <= hi <= text@.len(),
    ensures
        b == begins_with(text@.subrange(lo as int, hi as int), prefix@),
{
    let start = to_chars(prefix);
    let ghost s = text@.subrange(lo as int, hi as int);
    if hi - lo < start.len() {
        return false;
    }
    for i in 0..start.len()
        invariant
            lo <= hi <= text@.len(),
            s == text@.subrange(lo as int, hi as int),
            start@ == prefix@,
            start@.len() <= hi - lo,
            s.take(i as int) == prefix@.take(i as int),
    {
        assert(s[i as int] == text@[lo + i]);
        if text[lo + i] != start[i] {
            proof {
                assert(s.take(prefix@.len() as int)[i as int] == s[i as int]);
            }
            return false;
        }
        assert(s.take(i + 1) =~= s.take(i as int).push(s[i as int]));
        assert(prefix@.take(i + 1) =~= prefix@.take(i as int).push(prefix@[i as int]));
    }
    assert(prefix@.take(prefix@.len() as int) =~= prefix@);
    true
}

/// Where a range first holds a character, or its end.
pub(crate) fn search_char(text: &Vec<char>, lo: usize, hi: usize, needle: char) -> (at: usize)
    requires
        lo <= hi <= text@.len(),
    ensures
        lo <= at <= hi,
        at - lo == find_char(text@.subrange(lo as int, hi as int), needle, 0),
{
    let ghost s = text@.subrange(lo as int, hi as int);
    let mut at: usize = lo;
    while at < hi && text[at] != needle
        invariant
            lo <= at <= hi <= text@.len(),
            s == text@.subrange(lo as int, hi as int),
            forall|i: int| 0 <= i < at - lo ==> #[trigger] s[i] != needle,
        decreases hi - at,
    {
        assert(s[at - lo] == text@[at as int]);
        at = at + 1;
    }
    proof {
        if at < hi {
            assert(s[at - lo] == text@[at as int]);
        }
        lemma_find_unique(s, needle, 0, at - lo);
    }
    at
}

// What the parts of a text are.

/// Nothing but white space.
pub open spec fn is_blank(s: Seq<char>) -> bool {
    forall|i: int| 0 <= i < s.len() ==> is_white(#[trigger] s[i])
}

/// A text that neither starts nor ends with white space.
pub open spec fn is_bare(s: Seq<char>) -> bool {
    s.len() > 0 ==> !is_white(s[0]) && !is_white(s.last())
}

proof fn lemma_trim_start_blank(a: Seq<char>, s: Seq<char>)
    requires
        is_blank(a),
        s.len() > 0 ==> !is_white(s[0]),
    ensures
        trim_start(a + s) == s,
    decreases a.len(),
{
    if a.len() == 0 {
        assert(a + s =~= s);
    } else {
        let all = a + s;
        assert(all[0] == a[0]);
        assert(all.skip(1) =~= a.skip(1) + s);
        assert forall|i: int| 0 <= i < a.skip(1).len() implies is_white(#[trigger] a.skip(1)[i]) by {
            assert(is_white(a[i + 1]));
        }
        lemma_trim_start_blank(a.skip(1), s);
    }
}

proof fn lemma_trim_end_blank(s: Seq<char>, b: Seq<char>)
    requires
        is_blank(b),
        s.len() > 0 ==> !is_white(s.last()),
    ensures
        trim_end(s + b) == s,
    decreases b.len(),
{
    if b.len() == 0 {
        assert(s + b =~= s);
    } else {
        let all = s + b;
        assert(all.last() == b.last());
        assert(is_white(b[b.len() - 1]));
        assert(all.drop_last() =~= s + b.drop_last());
        assert forall|i: int| 0 <= i < b.drop_last().len() implies is_white(
            #[trigger] b.drop_last()[i],
        ) by {
            assert(is_white(b[i]));
        }
        lemma_trim_end_blank(s, b.drop_last());
    }
}

/// White space around a text that neither starts nor ends with any is all that trimming
/// takes away.
pub proof fn law_trim_takes_padding(a: Seq<char>, s: Seq<char>, b: Seq<char>)
    requires
        is_blank(a),
        is_bare(s),
        is_blank(b),
    ensures
        trim(a + s + b) == s,
{
    if s.len() == 0 {
        let all = a + s + b;
        assert(all =~= all + s);
        assert forall|i: int| 0 <= i < all.len() implies is_white(#[trigger] all[i]) by {
            if i < a.len() {
                assert(is_white(a[i]));
            } else {
                assert(is_white(b[i - a.len()]));
            }
        }
        lemma_trim_start_blank(all, s);
        lemma_trim_end_blank(s, s);
        assert(s + s =~= s);
    } else {
        assert((s + b)[0] == s[0]);
        assert(a + s + b =~= a + (s + b));
        lemma_trim_start_blank(a, s + b);
        lemma_trim_end_blank(s, b);
    }
}

proof fn lemma_trim_start_parts(s: Seq<char>) -> (a: Seq<char>)
    ensures
        is_blank(a),
        s == a + trim_start(s),
        trim_start(s).len() > 0 ==> !is_white(trim_start(s)[0]),
    decreases s.len(),
{
    if s.len() > 0 && is_white(s[0]) {
        let a = lemma_trim_start_parts(s.skip(1));
        let all = seq![s[0]] + a;
        assert forall|i: int| 0 <= i < all.len() implies is_white(#[trigger] all[i]) by {
            if i > 0 {
                assert(is_white(a[i - 1]));
            }
        }
        assert(s =~= seq![s[0]] + s.skip(1));
        assert(s =~= all + trim_start(s));
        all
    } else {
        assert(s =~= Seq::<char>::empty() + s);
        Seq::empty()
    }
}

proof fn lemma_trim_end_parts(s: Seq<char>) -> (b: Seq<char>)
    ensures
        is_blank(b),
        s == trim_end(s) + b,
        trim_end(s).len() > 0 ==> !is_white(trim_end(s).last()) && trim_end(s)[0] == s[0],
    decreases s.len(),
{
    if s.len() > 0 && is_white(s.last()) {
        let b = lemma_trim_end_parts(s.drop_last());
        let all = b.push(s.last());
        assert forall|i: int| 0 <= i < all.len() implies is_white(#[trigger] all[i]) by {
            if i < b.len() {
                assert(is_white(b[i]));
            }
        }
        assert(s =~= s.drop_last().push(s.last()));
        assert(s =~= trim_end(s) + all);
        all
    } else {
        assert(s =~= s + Seq::<char>::empty());
        Seq::empty()
    }
}

/// A text is what trimming leaves of it with white space on both sides, and what is left
/// neither starts nor ends with any.
pub proof fn law_trim_leaves_the_middle(s: Seq<char>) -> (pads: (Seq<char>, Seq<char>))
    ensures
        is_blank(pads.0),
        is_blank(pads.1),
        s == pads.0 + trim(s) + pads.1,
        is_bare(trim(s)),
{
    let a = lemma_trim_start_parts(s);
    let b = lemma_trim_end_parts(trim_start(s));
    assert(s =~= a + trim(s) + b);
    (a, b)
}

/// The first place of a character: it stands there, and nowhere before.
pub proof fn law_first_place(s: Seq<char>, needle: char, from: int)
    requires
        0 <= from <= s.len(),
    ensures
        from <= find_char(s, needle, from) <= s.len(),
        find_char(s, needle, from) < s.len() ==> s[find_char(s, needle, from)] == needle,
        forall|i: int| from <= i < find_char(s, needle, from) ==> #[trigger] s[i] != needle,
    decreases s.len() - from,
{
    if from < s.len() && s[from] != needle {
        law_first_place(s, needle, from + 1);
    }
}

/// A text without a line feed.
pub open spec fn is_line(s: Seq<char>) -> bool {
    forall|i: int| 0 <= i < s.len() ==> #[trigger] s[i] != '\n'
}

/// A line feed ends a line, and a carriage return before it belongs to the end: what stands
/// before is the first line, and the rest is split as if it stood alone.
pub proof fn law_lines_are_split_at_line_feeds(line: Seq<char>, rest: Seq<char>)
    requires
        is_line(line),
    ensures
        line.len() == 0 || line.last() != '\r' ==> lines_of(line.push('\n') + rest) == seq![line]
            + lines_of(rest),
        lines_of(line.push('\r').push('\n') + rest) == seq![line] + lines_of(rest),
        line.len() > 0 ==> lines_of(line) == seq![line],
        lines_of(Seq::<char>::empty()).len() == 0,
{
    let s = line.push('\n') + rest;
    assert forall|i: int| 0 <= i < line.len() implies #[trigger] s[i] != '\n' by {
        assert(s[i] == line[i]);
    }
    lemma_find_unique(s, '\n', 0, line.len() as int);
    assert(s.take(line.len() as int) =~= line);
    assert(s.skip((line.len() + 1) as int) =~= rest);
    let t = line.push('\r').push('\n') + rest;
    assert forall|i: int| 0 <= i < line.len() + 1 implies #[trigger] t[i] != '\n' by {
        if i < line.len() {
            assert(t[i] == line[i]);
        }
    }
    lemma_find_unique(t, '\n', 0, (line.len() + 1) as int);
    assert(t.take((line.len() + 1) as int) =~= line.push('\r'));
    assert(line.push('\r').drop_last() =~= line);
    assert(t.skip((line.len() + 2) as int) =~= rest);
    lemma_find_unique(line, '\n', 0, line.len() as int);
}

} // verus!
