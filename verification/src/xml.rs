//! Text inside XML: the characters that have to be written otherwise there.

use vstd::prelude::*;
use crate::text;

verus! {

/// A text as it is written inside an element.
pub open spec fn escaped(s: Seq<char>) -> Seq<char> {
    text::replace(
        text::replace(text::replace(s, "&"@, "&amp;"@), "<"@, "&lt;"@),
        ">"@,
        "&gt;"@,
    )
}

/// A text as it is written inside a quoted attribute: a bare quote there would
/// end the value early.
pub open spec fn escaped_attr(s: Seq<char>) -> Seq<char> {
    text::replace(escaped(s), "\""@, "&quot;"@)
}

/// What a written text stands for.
pub open spec fn unescaped(s: Seq<char>) -> Seq<char> {
    text::replace(
        text::replace(
            text::replace(
                text::replace(text::replace(s, "&lt;"@, "<"@), "&gt;"@, ">"@),
                "&quot;"@,
                "\""@,
            ),
            "&apos;"@,
            "'"@,
        ),
        "&amp;"@,
        "&"@,
    )
}

/// A text as it is written inside an element.
pub fn escape(s: &str) -> (r: String)
    ensures
        r@ == escaped(s@),
{
    proof {
        reveal_strlit("&");
        reveal_strlit("<");
        reveal_strlit(">");
    }
    let a = text::replaced(s, "&", "&amp;");
    let b = text::replaced(&a, "<", "&lt;");
    text::replaced(&b, ">", "&gt;")
}

/// A text as it is written inside a quoted attribute.
pub fn escape_attr(s: &str) -> (r: String)
    ensures
        r@ == escaped_attr(s@),
{
    proof {
        reveal_strlit("\"");
    }
    text::replaced(&escape(s), "\"", "&quot;")
}

/// What a written text stands for.
pub fn unescape(s: &str) -> (r: String)
    ensures
        r@ == unescaped(s@),
{
    proof {
        reveal_strlit("&lt;");
        reveal_strlit("&gt;");
        reveal_strlit("&quot;");
        reveal_strlit("&apos;");
        reveal_strlit("&amp;");
    }
    let a = text::replaced(s, "&lt;", "<");
    let b = text::replaced(&a, "&gt;", ">");
    let c = text::replaced(&b, "&quot;", "\"");
    let d = text::replaced(&c, "&apos;", "'");
    text::replaced(&d, "&amp;", "&")
}

// ---------------------------------------------------------------------------
// Writing and reading undo each other
// ---------------------------------------------------------------------------

/// The characters of a text, each written as `f` says.
pub open spec fn spelled(s: Seq<char>, f: spec_fn(char) -> Seq<char>) -> Seq<char>
    decreases s.len(),
{
    if s.len() == 0 {
        Seq::empty()
    } else {
        f(s[0]) + spelled(s.skip(1), f)
    }
}

proof fn lemma_spelled_plain(s: Seq<char>)
    ensures
        spelled(s, |c: char| seq![c]) == s,
    decreases s.len(),
{
    if s.len() > 0 {
        lemma_spelled_plain(s.skip(1));
        assert(seq![s[0]] + s.skip(1) =~= s);
    } else {
        assert(s =~= Seq::empty());
    }
}

/// A text without the first character of a pattern holds no pattern.
pub proof fn lemma_replace_none(t: Seq<char>, p: Seq<char>, r: Seq<char>)
    requires
        p.len() > 0,
        forall|i: int| 0 <= i < t.len() ==> t[i] != p[0],
    ensures
        text::replace(t, p, r) == t,
    decreases t.len(),
{
    if t.len() > 0 {
        let rest = t.skip(1);
        assert forall|i: int| 0 <= i < rest.len() implies rest[i] != p[0] by {
            assert(rest[i] == t[i + 1]);
        }
        lemma_replace_none(rest, p, r);
        if text::starts(t, p) {
            assert(t.take(p.len() as int)[0] == t[0]);
        }
        assert(seq![t[0]] + rest =~= t);
    }
}

/// Replacing one character goes piece by piece.
proof fn lemma_replace_char_add(a: Seq<char>, b: Seq<char>, c: char, r: Seq<char>)
    ensures
        text::replace(a + b, seq![c], r) == text::replace(a, seq![c], r) + text::replace(b, seq![c], r),
    decreases a.len(),
{
    if a.len() == 0 {
        assert(a + b =~= b);
        assert(text::replace(a, seq![c], r) + text::replace(b, seq![c], r) =~= text::replace(
            b,
            seq![c],
            r,
        ));
    } else {
        let t = a + b;
        lemma_replace_char_add(a.skip(1), b, c, r);
        assert(t.skip(1) =~= a.skip(1) + b);
        assert(t.take(1) =~= seq![a[0]]);
        assert(a.take(1) =~= seq![a[0]]);
        let ra = text::replace(a.skip(1), seq![c], r);
        let rb = text::replace(b, seq![c], r);
        assert((r + ra) + rb =~= r + (ra + rb));
        assert((seq![a[0]] + ra) + rb =~= seq![a[0]] + (ra + rb));
    }
}

/// Replacing one character of a text that is spelled out spells it otherwise.
proof fn lemma_replace_char_spelled(
    s: Seq<char>,
    f: spec_fn(char) -> Seq<char>,
    g: spec_fn(char) -> Seq<char>,
    c: char,
    r: Seq<char>,
)
    requires
        forall|x: char| #[trigger] g(x) == text::replace(f(x), seq![c], r),
    ensures
        text::replace(spelled(s, f), seq![c], r) == spelled(s, g),
    decreases s.len(),
{
    if s.len() > 0 {
        lemma_replace_char_spelled(s.skip(1), f, g, c, r);
        lemma_replace_char_add(f(s[0]), spelled(s.skip(1), f), c, r);
        assert(g(s[0]) == text::replace(f(s[0]), seq![c], r));
    }
}

/// A character as it is written inside an element, or inside an attribute.
pub open spec fn spelling(c: char, attr: bool) -> Seq<char> {
    if c == '&' {
        "&amp;"@
    } else if c == '<' {
        "&lt;"@
    } else if c == '>' {
        "&gt;"@
    } else if c == '"' && attr {
        "&quot;"@
    } else {
        seq![c]
    }
}

proof fn lemma_one_char_patterns()
    ensures
        "&"@ == seq!['&'],
        "<"@ == seq!['<'],
        ">"@ == seq!['>'],
        "\""@ == seq!['"'],
        "'"@ == seq!['\''],
{
    reveal_strlit("&");
    reveal_strlit("<");
    reveal_strlit(">");
    reveal_strlit("\"");
    reveal_strlit("'");
    assert("&"@ =~= seq!['&']);
    assert("<"@ =~= seq!['<']);
    assert(">"@ =~= seq!['>']);
    assert("\""@ =~= seq!['"']);
    assert("'"@ =~= seq!['\'']);
}

/// A one-character text after one replacement.
proof fn lemma_replace_single(x: char, c: char, r: Seq<char>)
    ensures
        text::replace(seq![x], seq![c], r) == (if x == c {
            r
        } else {
            seq![x]
        }),
{
    reveal_with_fuel(text::replace, 2);
    let t = seq![x];
    assert(t.take(1) =~= seq![x]);
    assert(t.skip(1) =~= Seq::<char>::empty());
    if x == c {
        assert(text::starts(t, seq![c]));
        assert(r + Seq::<char>::empty() =~= r);
    } else {
        assert(t.take(1)[0] != seq![c][0]);
        assert(seq![x] + Seq::<char>::empty() =~= seq![x]);
    }
}

/// Writing a text writes each of its characters.
pub proof fn lemma_escaped_is_spelled(s: Seq<char>)
    ensures
        escaped(s) == spelled(s, |c: char| spelling(c, false)),
        escaped_attr(s) == spelled(s, |c: char| spelling(c, true)),
{
    lemma_one_char_patterns();
    reveal_strlit("&amp;");
    reveal_strlit("&lt;");
    reveal_strlit("&gt;");
    let f0 = |c: char| seq![c];
    let f1 = |c: char|
        if c == '&' {
            "&amp;"@
        } else {
            seq![c]
        };
    let f2 = |c: char|
        if c == '<' {
            "&lt;"@
        } else {
            f1(c)
        };
    let f3 = |c: char| spelling(c, false);
    let f4 = |c: char| spelling(c, true);
    lemma_spelled_plain(s);
    assert forall|x: char| #[trigger] f1(x) == text::replace(f0(x), seq!['&'], "&amp;"@) by {
        lemma_replace_single(x, '&', "&amp;"@);
    }
    lemma_replace_char_spelled(s, f0, f1, '&', "&amp;"@);
    assert forall|x: char| #[trigger] f2(x) == text::replace(f1(x), seq!['<'], "&lt;"@) by {
        if x == '&' {
            lemma_replace_none("&amp;"@, seq!['<'], "&lt;"@);
        } else {
            lemma_replace_single(x, '<', "&lt;"@);
        }
    }
    lemma_replace_char_spelled(s, f1, f2, '<', "&lt;"@);
    assert forall|x: char| #[trigger] f3(x) == text::replace(f2(x), seq!['>'], "&gt;"@) by {
        if x == '&' {
            lemma_replace_none("&amp;"@, seq!['>'], "&gt;"@);
        } else if x == '<' {
            lemma_replace_none("&lt;"@, seq!['>'], "&gt;"@);
        } else {
            lemma_replace_single(x, '>', "&gt;"@);
        }
    }
    lemma_replace_char_spelled(s, f2, f3, '>', "&gt;"@);
    assert forall|x: char| #[trigger] f4(x) == text::replace(f3(x), seq!['"'], "&quot;"@) by {
        if x == '&' {
            lemma_replace_none("&amp;"@, seq!['"'], "&quot;"@);
        } else if x == '<' {
            lemma_replace_none("&lt;"@, seq!['"'], "&quot;"@);
        } else if x == '>' {
            lemma_replace_none("&gt;"@, seq!['"'], "&quot;"@);
        } else {
            lemma_replace_single(x, '"', "&quot;"@);
        }
    }
    lemma_replace_char_spelled(s, f3, f4, '"', "&quot;"@);
}

/// A piece that is not the pattern, and in which no pattern can begin but at
/// its first character, is passed over.
proof fn lemma_replace_past(tok: Seq<char>, rest: Seq<char>, p: Seq<char>, r: Seq<char>, k: int)
    requires
        p.len() > 0,
        p[0] == '&',
        0 <= k < tok.len(),
        k < p.len(),
        tok[k] != p[k],
        forall|j: int| 1 <= j < tok.len() ==> tok[j] != '&',
    ensures
        text::replace(tok + rest, p, r) == tok + text::replace(rest, p, r),
{
    let t = tok + rest;
    if text::starts(t, p) {
        assert(t.take(p.len() as int)[k] == t[k]);
    }
    let tail = tok.skip(1);
    assert(t.skip(1) =~= tail + rest);
    lemma_replace_past_tail(tail, rest, p, r);
    assert(seq![tok[0]] + (tail + text::replace(rest, p, r)) =~= tok + text::replace(rest, p, r));
}

proof fn lemma_replace_past_tail(tail: Seq<char>, rest: Seq<char>, p: Seq<char>, r: Seq<char>)
    requires
        p.len() > 0,
        p[0] == '&',
        forall|j: int| 0 <= j < tail.len() ==> tail[j] != '&',
    ensures
        text::replace(tail + rest, p, r) == tail + text::replace(rest, p, r),
    decreases tail.len(),
{
    let t = tail + rest;
    if tail.len() == 0 {
        assert(t =~= rest);
        assert(tail + text::replace(rest, p, r) =~= text::replace(rest, p, r));
    } else {
        if text::starts(t, p) {
            assert(t.take(p.len() as int)[0] == t[0]);
        }
        let more = tail.skip(1);
        assert(t.skip(1) =~= more + rest);
        lemma_replace_past_tail(more, rest, p, r);
        assert(seq![tail[0]] + (more + text::replace(rest, p, r)) =~= tail + text::replace(rest, p, r));
    }
}

/// A pattern at the beginning is replaced.
proof fn lemma_replace_here(rest: Seq<char>, p: Seq<char>, r: Seq<char>)
    requires
        p.len() > 0,
    ensures
        text::replace(p + rest, p, r) == r + text::replace(rest, p, r),
{
    let t = p + rest;
    assert(t.take(p.len() as int) =~= p);
    assert(t.skip(p.len() as int) =~= rest);
}

/// One step of reading a written text: every character spelled as the pattern
/// is now spelled as what it stands for.
proof fn lemma_unspelled(
    s: Seq<char>,
    f: spec_fn(char) -> Seq<char>,
    g: spec_fn(char) -> Seq<char>,
    p: Seq<char>,
    r: Seq<char>,
)
    requires
        p.len() > 0,
        p[0] == '&',
        forall|c: char|
            #![trigger f(c)]
            (f(c) == p && g(c) == r) || (g(c) == f(c) && passes(f(c), p)),
    ensures
        text::replace(spelled(s, f), p, r) == spelled(s, g),
    decreases s.len(),
{
    if s.len() > 0 {
        let rest = spelled(s.skip(1), f);
        lemma_unspelled(s.skip(1), f, g, p, r);
        let tok = f(s[0]);
        if tok == p && g(s[0]) == r {
            lemma_replace_here(rest, p, r);
        } else {
            let k = choose|k: int| 0 <= k < tok.len() && k < p.len() && #[trigger] tok[k] != p[k];
            lemma_replace_past(tok, rest, p, r, k);
        }
    }
}

/// A spelling in which the pattern is not, and does not begin.
spec fn passes(tok: Seq<char>, p: Seq<char>) -> bool {
    &&& exists|k: int| 0 <= k < tok.len() && k < p.len() && #[trigger] tok[k] != p[k]
    &&& forall|j: int| 1 <= j < tok.len() ==> tok[j] != '&'
}

proof fn lemma_unescaped_spelled(s: Seq<char>, attr: bool)
    ensures
        unescaped(spelled(s, |c: char| spelling(c, attr))) == s,
{
    lemma_one_char_patterns();
    reveal_strlit("&amp;");
    reveal_strlit("&lt;");
    reveal_strlit("&gt;");
    reveal_strlit("&quot;");
    reveal_strlit("&apos;");
    let amp = "&amp;"@;
    let lt = "&lt;"@;
    let gt = "&gt;"@;
    let quot = "&quot;"@;
    let apos = "&apos;"@;
    let f0 = |c: char| spelling(c, attr);
    let f1 = |c: char|
        if c == '<' {
            seq!['<']
        } else {
            spelling(c, attr)
        };
    let f2 = |c: char|
        if c == '<' || c == '>' {
            seq![c]
        } else {
            spelling(c, attr)
        };
    let f3 = |c: char|
        if c == '&' {
            amp
        } else {
            seq![c]
        };
    let f4 = |c: char| seq![c];
    assert(amp[0] == '&' && amp[1] == 'a' && amp[2] == 'm');
    assert(lt[0] == '&' && lt[1] == 'l');
    assert(gt[0] == '&' && gt[1] == 'g');
    assert(quot[0] == '&' && quot[1] == 'q');
    assert(apos[0] == '&' && apos[1] == 'a' && apos[2] == 'p');
    assert forall|c: char|
        #![trigger f0(c)]
        (f0(c) == lt && f1(c) == "<"@) || (f1(c) == f0(c) && passes(f0(c), lt)) by {
        let tok = f0(c);
        if c != '<' {
            if tok.len() > 1 {
                assert(tok[1] != lt[1]);
            } else {
                assert(tok[0] != lt[0]);
            }
        }
    }
    lemma_unspelled(s, f0, f1, lt, "<"@);
    assert forall|c: char|
        #![trigger f1(c)]
        (f1(c) == gt && f2(c) == ">"@) || (f2(c) == f1(c) && passes(f1(c), gt)) by {
        let tok = f1(c);
        if c != '>' {
            if tok.len() > 1 {
                assert(tok[1] != gt[1]);
            } else {
                assert(tok[0] != gt[0]);
            }
        }
    }
    lemma_unspelled(s, f1, f2, gt, ">"@);
    assert forall|c: char|
        #![trigger f2(c)]
        (f2(c) == quot && f3(c) == "\""@) || (f3(c) == f2(c) && passes(f2(c), quot)) by {
        let tok = f2(c);
        if !(c == '"' && attr) {
            if tok.len() > 1 {
                assert(tok[1] != quot[1]);
            } else {
                assert(tok[0] != quot[0]);
            }
        }
    }
    lemma_unspelled(s, f2, f3, quot, "\""@);
    assert forall|c: char|
        #![trigger f3(c)]
        (f3(c) == apos && f3(c) == "'"@) || (f3(c) == f3(c) && passes(f3(c), apos)) by {
        let tok = f3(c);
        if tok.len() > 1 {
            assert(tok[2] != apos[2]);
        } else {
            assert(tok[0] != apos[0]);
        }
    }
    lemma_unspelled(s, f3, f3, apos, "'"@);
    assert forall|c: char|
        #![trigger f3(c)]
        (f3(c) == amp && f4(c) == "&"@) || (f4(c) == f3(c) && passes(f3(c), amp)) by {
        let tok = f3(c);
        if c != '&' {
            assert(tok[0] != amp[0]);
        }
    }
    lemma_unspelled(s, f3, f4, amp, "&"@);
    lemma_spelled_plain(s);
}

/// What was written inside an element or an attribute reads back as it was.
pub proof fn law_unescape_undoes_escape(s: Seq<char>)
    ensures
        unescaped(escaped(s)) == s,
        unescaped(escaped_attr(s)) == s,
{
    lemma_escaped_is_spelled(s);
    lemma_unescaped_spelled(s, false);
    lemma_unescaped_spelled(s, true);
}

/// A text without an ampersand stands for itself.
pub proof fn lemma_unescaped_plain(s: Seq<char>)
    requires
        forall|i: int| 0 <= i < s.len() ==> s[i] != '&',
    ensures
        unescaped(s) == s,
{
    reveal_strlit("&amp;");
    reveal_strlit("&lt;");
    reveal_strlit("&gt;");
    reveal_strlit("&quot;");
    reveal_strlit("&apos;");
    lemma_replace_none(s, "&lt;"@, "<"@);
    lemma_replace_none(s, "&gt;"@, ">"@);
    lemma_replace_none(s, "&quot;"@, "\""@);
    lemma_replace_none(s, "&apos;"@, "'"@);
    lemma_replace_none(s, "&amp;"@, "&"@);
}

/// A text on one line is written on one line.
pub proof fn lemma_escaped_stays_on_one_line(s: Seq<char>)
    requires
        !s.contains('\n'),
    ensures
        !escaped_attr(s).contains('\n'),
{
    reveal_strlit("&amp;");
    reveal_strlit("&lt;");
    reveal_strlit("&gt;");
    reveal_strlit("&quot;");
    let a = text::replace(s, "&"@, "&amp;"@);
    let b = text::replace(a, "<"@, "&lt;"@);
    text::lemma_replace_holds(s, "&"@, "&amp;"@, '\n');
    text::lemma_replace_holds(a, "<"@, "&lt;"@, '\n');
    text::lemma_replace_holds(b, ">"@, "&gt;"@, '\n');
    text::lemma_replace_holds(escaped(s), "\""@, "&quot;"@, '\n');
}

/// What is written inside an element holds no angle bracket; inside an
/// attribute, no quote either.
pub proof fn lemma_escaped_holds_no_tag(s: Seq<char>)
    ensures
        forall|i: int|
            0 <= i < escaped(s).len() ==> escaped(s)[i] != '<' && #[trigger] escaped(s)[i] != '>',
        forall|i: int|
            0 <= i < escaped_attr(s).len() ==> escaped_attr(s)[i] != '<' && escaped_attr(s)[i] != '>'
                && #[trigger] escaped_attr(s)[i] != '"',
{
    lemma_escaped_is_spelled(s);
    lemma_spelled_holds_no_tag(s, false);
    lemma_spelled_holds_no_tag(s, true);
}

proof fn lemma_spelled_holds_no_tag(s: Seq<char>, attr: bool)
    ensures
        ({
            let t = spelled(s, |c: char| spelling(c, attr));
            forall|i: int|
                0 <= i < t.len() ==> t[i] != '<' && #[trigger] t[i] != '>' && (attr ==> t[i] != '"')
        }),
    decreases s.len(),
{
    reveal_strlit("&amp;");
    reveal_strlit("&lt;");
    reveal_strlit("&gt;");
    reveal_strlit("&quot;");
    if s.len() > 0 {
        lemma_spelled_holds_no_tag(s.skip(1), attr);
        let f = |c: char| spelling(c, attr);
        let tok = f(s[0]);
        let rest = spelled(s.skip(1), f);
        let t = spelled(s, f);
        assert(t == tok + rest);
        assert forall|i: int| 0 <= i < t.len() implies t[i] != '<' && #[trigger] t[i] != '>' && (attr
            ==> t[i] != '"') by {
            if i < tok.len() {
                assert(t[i] == tok[i]);
                assert(tok[i] != '<' && tok[i] != '>' && (attr ==> tok[i] != '"'));
            } else {
                assert(t[i] == rest[i - tok.len()]);
            }
        }
    }
}

} // verus!
