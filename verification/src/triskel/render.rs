//! Text in markup.
use crate::text::{begins_with, push_text, string_of, to_chars};
use vstd::prelude::*;

verus! {

/// What stands for a character in markup.
pub open spec fn escaped_char(c: char) -> Seq<char> {
    if c == '&' {
        "&amp;"@
    } else if c == '<' {
        "&lt;"@
    } else if c == '>' {
        "&gt;"@
    } else if c == '"' {
        "&quot;"@
    } else if c == '\'' {
        "&#39;"@
    } else {
        seq![c]
    }
}

/// What stands for a text in markup.
pub open spec fn escaped(s: Seq<char>) -> Seq<char>
    decreases s.len(),
{
    if s.len() == 0 {
        Seq::empty()
    } else {
        escaped(s.drop_last()) + escaped_char(s.last())
    }
}

/// Replaces the characters that mean something in markup.
pub fn escape_html(value: &str) -> (text: String)
    ensures
        text@ == escaped(value@),
{
    let list = to_chars(value);
    let mut out: Vec<char> = Vec::new();
    for i in 0..list.len()
        invariant
            list@ == value@,
            out@ == escaped(value@.take(i as int)),
    {
        let c: char = list[i];
        let ghost before = out@;
        assert(value@.take(i + 1).drop_last() =~= value@.take(i as int));
        if c == '&' {
            push_text(&mut out, "&amp;");
        } else if c == '<' {
            push_text(&mut out, "&lt;");
        } else if c == '>' {
            push_text(&mut out, "&gt;");
        } else if c == '"' {
            push_text(&mut out, "&quot;");
        } else if c == '\'' {
            push_text(&mut out, "&#39;");
        } else {
            out.push(c);
            assert(out@ =~= before + seq![c]);
        }
    }
    assert(value@.take(value@.len() as int) =~= value@);
    string_of(out)
}

/// No character that opens or closes markup is left.
pub open spec fn is_safe(s: Seq<char>) -> bool {
    forall|i: int|
        0 <= i < s.len() ==> #[trigger] s[i] != '<' && s[i] != '>' && s[i] != '"' && s[i] != '\''
}

/// Escaped text holds no character that opens or closes markup.
pub proof fn law_escaped_text_is_safe(s: Seq<char>)
    ensures
        is_safe(escaped(s)),
    decreases s.len(),
{
    if s.len() > 0 {
        law_escaped_text_is_safe(s.drop_last());
        reveal_strlit("&amp;");
        reveal_strlit("&lt;");
        reveal_strlit("&gt;");
        reveal_strlit("&quot;");
        reveal_strlit("&#39;");
        let tail = escaped_char(s.last());
        assert(is_safe(tail));
        let front = escaped(s.drop_last());
        assert forall|i: int| 0 <= i < (front + tail).len() implies #[trigger] (front + tail)[i]
            != '<' && (front + tail)[i] != '>' && (front + tail)[i] != '"' && (front + tail)[i]
            != '\'' by {
            if i < front.len() {
                assert(front[i] == (front + tail)[i]);
            } else {
                assert(tail[i - front.len()] == (front + tail)[i]);
            }
        }
    }
}

/// The character that a reference at the start of a text stands for, and how long the
/// reference is.
pub open spec fn reference(s: Seq<char>) -> Option<(char, int)> {
    if begins_with(s, "&amp;"@) {
        Some(('&', 5))
    } else if begins_with(s, "&lt;"@) {
        Some(('<', 4))
    } else if begins_with(s, "&gt;"@) {
        Some(('>', 4))
    } else if begins_with(s, "&quot;"@) {
        Some(('"', 6))
    } else if begins_with(s, "&#39;"@) {
        Some(('\'', 5))
    } else {
        None
    }
}

/// What markup shows: references stand for characters, and all else for itself.
pub open spec fn shown(s: Seq<char>) -> Seq<char>
    decreases s.len(),
{
    if s.len() == 0 {
        Seq::empty()
    } else {
        match reference(s) {
            Some((c, n)) => if 0 < n <= s.len() {
                seq![c] + shown(s.skip(n))
            } else {
                Seq::empty()
            },
            None => seq![s[0]] + shown(s.skip(1)),
        }
    }
}

/// Texts are escaped part by part.
pub proof fn law_escape_in_parts(a: Seq<char>, b: Seq<char>)
    ensures
        escaped(a + b) == escaped(a) + escaped(b),
    decreases b.len(),
{
    if b.len() == 0 {
        assert(a + b =~= a);
        assert(escaped(a) + escaped(b) =~= escaped(a));
    } else {
        law_escape_in_parts(a, b.drop_last());
        assert((a + b).drop_last() =~= a + b.drop_last());
        assert(escaped(a) + (escaped(b.drop_last()) + escaped_char(b.last())) =~= escaped(a)
            + escaped(b));
    }
}

/// What stands for a character is read as that character.
proof fn lemma_reference(c: char, rest: Seq<char>)
    ensures
        shown(escaped_char(c) + rest) == seq![c] + shown(rest),
{
    reveal_strlit("&amp;");
    reveal_strlit("&lt;");
    reveal_strlit("&gt;");
    reveal_strlit("&quot;");
    reveal_strlit("&#39;");
    let head = escaped_char(c);
    let s = head + rest;
    let n = head.len() as int;
    assert(s.skip(n) =~= rest);
    assert(s.take(n) =~= head);
    assert(s[0] == head[0]);
    if c == '&' || c == '<' || c == '>' || c == '"' || c == '\'' {
        assert(s[1] == head[1]);
        if begins_with(s, "&amp;"@) {
            assert(s.take(5)[1] == "&amp;"@[1]);
        }
        if begins_with(s, "&lt;"@) {
            assert(s.take(4)[1] == "&lt;"@[1]);
        }
        if begins_with(s, "&gt;"@) {
            assert(s.take(4)[1] == "&gt;"@[1]);
        }
        if begins_with(s, "&quot;"@) {
            assert(s.take(6)[1] == "&quot;"@[1]);
        }
        if begins_with(s, "&#39;"@) {
            assert(s.take(5)[1] == "&#39;"@[1]);
        }
        assert(reference(s) == Some((c, n)));
    } else {
        if begins_with(s, "&amp;"@) {
            assert(s.take(5)[0] == "&amp;"@[0]);
        }
        if begins_with(s, "&lt;"@) {
            assert(s.take(4)[0] == "&lt;"@[0]);
        }
        if begins_with(s, "&gt;"@) {
            assert(s.take(4)[0] == "&gt;"@[0]);
        }
        if begins_with(s, "&quot;"@) {
            assert(s.take(6)[0] == "&quot;"@[0]);
        }
        if begins_with(s, "&#39;"@) {
            assert(s.take(5)[0] == "&#39;"@[0]);
        }
        assert(reference(s) is None);
    }
}

/// Escaped text shows the text that was escaped.
pub proof fn law_escaped_text_shows_the_text(s: Seq<char>)
    ensures
        shown(escaped(s)) == s,
    decreases s.len(),
{
    if s.len() > 0 {
        let rest = s.skip(1);
        law_escaped_text_shows_the_text(rest);
        assert(s =~= seq![s[0]] + rest);
        law_escape_in_parts(seq![s[0]], rest);
        assert(escaped(seq![s[0]]) =~= escaped_char(s[0])) by {
            assert(seq![s[0]].drop_last() =~= Seq::empty());
            assert(escaped(seq![s[0]].drop_last()) =~= Seq::empty());
        }
        lemma_reference(s[0], escaped(rest));
    } else {
        assert(escaped(s) =~= s);
    }
}

} // verus!
