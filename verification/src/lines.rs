//! Text as lines.
//!
//! A line ends at a line feed, and a carriage return before that feed is not
//! part of the line. A text that ends in a line feed has no empty line after
//! it.

use vstd::prelude::*;
use crate::text;

verus! {

/// A line feed, as text.
pub open spec fn feed() -> Seq<char> {
    seq!['\n']
}

/// A line without the carriage return that stood before its line feed.
pub open spec fn strip_return(l: Seq<char>) -> Seq<char> {
    if l.len() > 0 && l.last() == '\r' {
        l.drop_last()
    } else {
        l
    }
}

/// The lines of a text.
pub open spec fn lines(t: Seq<char>) -> Seq<Seq<char>> {
    let pieces = text::split(t, '\n');
    let ended = pieces.drop_last().map_values(|l: Seq<char>| strip_return(l));
    if pieces.last().len() == 0 {
        ended
    } else {
        ended.push(pieces.last())
    }
}

/// A line holds no line feed and does not end in a carriage return, so that
/// written with a line feed after it it reads back as it is.
pub open spec fn clean(l: Seq<char>) -> bool {
    &&& forall|i: int| 0 <= i < l.len() ==> l[i] != '\n'
    &&& l.len() > 0 ==> l.last() != '\r'
}

/// Every line is clean.
pub open spec fn all_clean(ls: Seq<Seq<char>>) -> bool {
    forall|i: int| 0 <= i < ls.len() ==> clean(#[trigger] ls[i])
}

/// Every line is one line: it holds no line feed.
pub open spec fn all_one_line(ls: Seq<Seq<char>>) -> bool {
    forall|k: int, i: int| 0 <= k < ls.len() && 0 <= i < ls[k].len() ==> #[trigger] ls[k][i] != '\n'
}

/// Lines without the carriage return that each may end in.
pub open spec fn stripped(ls: Seq<Seq<char>>) -> Seq<Seq<char>> {
    ls.map_values(|l: Seq<char>| strip_return(l))
}

/// A text with a line feed at its end, put there if it had none.
pub open spec fn closed_off(t: Seq<char>) -> Seq<char> {
    if t.len() > 0 && t.last() == '\n' {
        t
    } else {
        t.push('\n')
    }
}

/// The lines of a text.
pub fn lines_of(t: &str) -> (r: Vec<String>)
    ensures
        text::texts(r@) == lines(t@),
{
    let pieces = text::pieces(t, '\n');
    proof {
        text::lemma_split_len(t@, '\n');
    }
    let ghost all = text::texts(pieces@);
    assert(all.len() == pieces@.len());
    let last: usize = pieces.len() - 1;
    let mut out: Vec<String> = Vec::new();
    let mut i: usize = 0;
    let ghost ended = all.drop_last().map_values(|l: Seq<char>| strip_return(l));
    while i < last
        invariant
            i <= last,
            last == pieces@.len() - 1,
            all == text::texts(pieces@),
            ended == all.drop_last().map_values(|l: Seq<char>| strip_return(l)),
            text::texts(out@) == ended.take(i as int),
        decreases last - i,
    {
        let line = without_return(&pieces[i]);
        let ghost before = text::texts(out@);
        out.push(line);
        assert(text::texts(out@) =~= before.push(line@));
        assert(ended.take(i + 1) =~= ended.take(i as int).push(line@));
        i += 1;
    }
    assert(ended.take(last as int) =~= ended);
    if !text::is_empty(&pieces[last]) {
        let ghost before = text::texts(out@);
        out.push(pieces[last].clone());
        assert(text::texts(out@) =~= before.push(all.last()));
    }
    out
}

/// The lines with a line feed between each two.
pub fn join_lines(ls: &Vec<String>) -> (r: String)
    ensures
        r@ == text::join(text::texts(ls@), feed()),
{
    proof {
        reveal_strlit("\n");
        assert("\n"@ =~= feed());
    }
    text::joined(ls, "\n")
}

fn without_return(l: &str) -> (r: String)
    ensures
        r@ == strip_return(l@),
{
    let l = text::chars_of(l);
    let n: usize = l.len();
    if n > 0 && l[n - 1] == '\r' {
        assert(l@.drop_last() =~= l@.subrange(0, n - 1));
        text::part(&l, 0, n - 1)
    } else {
        text::string_of(&l)
    }
}

/// The text with a line feed at its end, put there if it had none.
pub fn close_off(t: &str) -> (r: String)
    ensures
        r@ == closed_off(t@),
{
    let c = text::chars_of(t);
    let n: usize = c.len();
    let mut out = text::owned(t);
    if n == 0 || c[n - 1] != '\n' {
        out.push('\n');
    }
    out
}

// ---------------------------------------------------------------------------
// Splitting and joining undo each other
// ---------------------------------------------------------------------------

/// Splitting on both sides of a separator.
pub proof fn lemma_split_at(a: Seq<char>, b: Seq<char>, c: char)
    ensures
        text::split(a.push(c) + b, c) == text::split(a, c) + text::split(b, c),
    decreases b.len(),
{
    text::lemma_split_len(b, c);
    if b.len() == 0 {
        assert(a.push(c) + b =~= a.push(c));
        assert(a.push(c).drop_last() =~= a);
        assert(text::split(a, c).push(Seq::empty()) =~= text::split(a, c) + text::split(b, c));
    } else {
        lemma_split_at(a, b.drop_last(), c);
        text::lemma_split_len(b.drop_last(), c);
        let whole = a.push(c) + b;
        assert(whole.drop_last() =~= a.push(c) + b.drop_last());
        assert(whole.last() == b.last());
        let front = text::split(a, c);
        let rest = text::split(b.drop_last(), c);
        if b.last() == c {
            assert((front + rest).push(Seq::empty()) =~= front + rest.push(Seq::empty()));
        } else {
            let all = front + rest;
            assert(all.last() == rest.last());
            assert(all.update(all.len() - 1, all.last().push(b.last())) =~= front + rest.update(
                rest.len() - 1,
                rest.last().push(b.last()),
            ));
        }
    }
}

/// A text without the separator is one piece.
pub proof fn lemma_split_one(t: Seq<char>, c: char)
    requires
        forall|i: int| 0 <= i < t.len() ==> t[i] != c,
    ensures
        text::split(t, c) == seq![t],
    decreases t.len(),
{
    if t.len() > 0 {
        lemma_split_one(t.drop_last(), c);
        assert(t.drop_last().push(t.last()) =~= t);
        assert(text::split(t, c) =~= seq![t]);
    } else {
        assert(t =~= Seq::empty());
    }
}

/// No piece holds the separator.
pub proof fn lemma_split_pieces(t: Seq<char>, c: char)
    ensures
        forall|k: int, i: int|
            0 <= k < text::split(t, c).len() && 0 <= i < text::split(t, c)[k].len()
                ==> #[trigger] text::split(t, c)[k][i] != c,
    decreases t.len(),
{
    if t.len() > 0 {
        lemma_split_pieces(t.drop_last(), c);
        text::lemma_split_len(t.drop_last(), c);
    }
}

/// Joining more parts on.
pub proof fn lemma_join_push(ps: Seq<Seq<char>>, p: Seq<char>, sep: Seq<char>)
    requires
        ps.len() > 0,
    ensures
        text::join(ps.push(p), sep) == text::join(ps, sep) + sep + p,
{
    assert(ps.push(p).drop_last() =~= ps);
}

/// Joining two lists of parts, one after the other.
pub proof fn lemma_join_add(a: Seq<Seq<char>>, b: Seq<Seq<char>>, sep: Seq<char>)
    requires
        a.len() > 0,
        b.len() > 0,
    ensures
        text::join(a + b, sep) == text::join(a, sep) + sep + text::join(b, sep),
    decreases b.len(),
{
    if b.len() == 1 {
        assert(a + b =~= a.push(b[0]));
        lemma_join_push(a, b[0], sep);
    } else {
        lemma_join_add(a, b.drop_last(), sep);
        assert((a + b).drop_last() =~= a + b.drop_last());
        assert(text::join(a + b, sep) =~= text::join(a, sep) + sep + text::join(b, sep));
    }
}

/// The pieces of a text, joined again, are the text.
pub proof fn lemma_join_split(t: Seq<char>, c: char)
    ensures
        text::join(text::split(t, c), seq![c]) == t,
    decreases t.len(),
{
    if t.len() == 0 {
        assert(text::join(text::split(t, c), seq![c]) =~= t);
    } else {
        lemma_join_split(t.drop_last(), c);
        text::lemma_split_len(t.drop_last(), c);
        let rest = text::split(t.drop_last(), c);
        let all = text::split(t, c);
        if t.last() == c {
            lemma_join_push(rest, Seq::empty(), seq![c]);
            assert(text::join(all, seq![c]) =~= t);
        } else {
            assert(all.drop_last() =~= rest.drop_last());
            assert(all.last() == rest.last().push(t.last()));
            assert(text::join(all, seq![c]) =~= text::join(rest, seq![c]).push(t.last()));
            assert(t.drop_last().push(t.last()) =~= t);
        }
    }
}

/// Parts that do not hold the separator come back when what was joined of
/// them is split.
pub proof fn lemma_split_join(ps: Seq<Seq<char>>, c: char)
    requires
        ps.len() > 0,
        forall|k: int, i: int| 0 <= k < ps.len() && 0 <= i < ps[k].len() ==> #[trigger] ps[k][i] != c,
    ensures
        text::split(text::join(ps, seq![c]), c) == ps,
    decreases ps.len(),
{
    if ps.len() == 1 {
        lemma_split_one(ps[0], c);
        assert(seq![ps[0]] =~= ps);
    } else {
        let front = ps.drop_last();
        assert forall|k: int, i: int| 0 <= k < front.len() && 0 <= i < front[k].len() implies
            #[trigger] front[k][i] != c by {
            assert(ps[k][i] != c);
        }
        lemma_split_join(front, c);
        let last = ps.last();
        assert forall|i: int| 0 <= i < last.len() implies last[i] != c by {
            assert(ps[ps.len() - 1][i] != c);
        }
        lemma_split_one(last, c);
        lemma_split_at(text::join(front, seq![c]), last, c);
        assert(text::join(front, seq![c]) + seq![c] + last =~= text::join(front, seq![c]).push(c) + last);
        assert(front + seq![last] =~= ps);
    }
}

/// Lines without a line feed in them, joined and closed off, read back without
/// the carriage return they end in.
pub proof fn lemma_lines_read_back(ls: Seq<Seq<char>>)
    requires
        ls.len() > 0,
        all_one_line(ls),
    ensures
        lines(text::join(ls, feed()).push('\n')) == stripped(ls),
{
    lemma_split_join(ls, '\n');
    let t = text::join(ls, feed());
    lemma_split_at(t, Seq::empty(), '\n');
    assert(t.push('\n') + Seq::<char>::empty() =~= t.push('\n'));
    let pieces = text::split(t.push('\n'), '\n');
    assert(pieces =~= ls.push(Seq::empty()));
    assert(pieces.drop_last() =~= ls);
}

/// Clean lines, joined and closed off, read back as they are.
pub proof fn lemma_lines_of_joined(ls: Seq<Seq<char>>)
    requires
        ls.len() > 0,
        all_clean(ls),
    ensures
        lines(text::join(ls, feed()).push('\n')) == ls,
{
    lemma_clean(ls);
    lemma_lines_read_back(ls);
}

/// Clean lines are one line each, and have no carriage return to lose.
pub proof fn lemma_clean(ls: Seq<Seq<char>>)
    requires
        all_clean(ls),
    ensures
        all_one_line(ls),
        stripped(ls) == ls,
{
    assert forall|k: int, i: int| 0 <= k < ls.len() && 0 <= i < ls[k].len() implies #[trigger] ls[k][i]
        != '\n' by {
        assert(clean(ls[k]));
    }
    assert forall|k: int| 0 <= k < ls.len() implies stripped(ls)[k] == ls[k] by {
        assert(clean(ls[k]));
    }
    assert(stripped(ls) =~= ls);
}

/// No line of a text holds a line feed.
pub proof fn lemma_lines_hold_no_feed(t: Seq<char>)
    ensures
        all_one_line(lines(t)),
{
    lemma_split_pieces(t, '\n');
    text::lemma_split_len(t, '\n');
    let ps = text::split(t, '\n');
    assert forall|k: int, i: int| 0 <= k < lines(t).len() && 0 <= i < lines(t)[k].len() implies
        #[trigger] lines(t)[k][i] != '\n' by {
        assert(ps[k][i] != '\n');
    }
}

/// A text is the lines before a line feed and those after it.
pub proof fn lemma_lines_add(a: Seq<char>, b: Seq<char>)
    ensures
        lines(a.push('\n') + b) == lines(a.push('\n')) + lines(b),
{
    lemma_split_at(a, b, '\n');
    lemma_split_at(a, Seq::empty(), '\n');
    text::lemma_split_len(a, '\n');
    text::lemma_split_len(b, '\n');
    assert(a.push('\n') + Seq::<char>::empty() =~= a.push('\n'));
    let pa = text::split(a, '\n');
    let pb = text::split(b, '\n');
    assert(text::split(a.push('\n'), '\n') =~= pa.push(Seq::empty()));
    assert(pa.push(Seq::empty()).drop_last() =~= pa);
    assert((pa + pb).drop_last() =~= pa + pb.drop_last());
    assert((pa + pb).last() == pb.last());
    let f = |l: Seq<char>| strip_return(l);
    assert((pa + pb.drop_last()).map_values(f) =~= pa.map_values(f) + pb.drop_last().map_values(f));
    assert(lines(a.push('\n') + b) =~= lines(a.push('\n')) + lines(b));
}

// ---------------------------------------------------------------------------
// What trimming the end of a text does to its lines
// ---------------------------------------------------------------------------

/// Lines without the blank ones at the end, the last one trimmed at its end.
pub open spec fn trim_tail(ls: Seq<Seq<char>>) -> Seq<Seq<char>>
    decreases ls.len(),
{
    if ls.len() == 0 {
        ls
    } else if text::all_space(ls.last()) {
        trim_tail(ls.drop_last())
    } else {
        ls.drop_last().push(text::trim_end(ls.last()))
    }
}

/// Trimming a text at its end trims its lines.
pub proof fn lemma_trim_joined(ls: Seq<Seq<char>>)
    ensures
        text::trim_end(text::join(ls, feed())) == text::join(trim_tail(ls), feed()),
    decreases ls.len(),
{
    if ls.len() == 0 {
    } else if ls.len() == 1 {
        text::lemma_blank(ls[0]);
        reveal_with_fuel(trim_tail, 2);
        assert(ls.drop_last() =~= Seq::empty());
        assert(text::join(trim_tail(ls), feed()) =~= text::trim_end(ls[0]));
    } else {
        let front = ls.drop_last();
        let j = text::join(front, feed());
        let last = ls.last();
        lemma_trim_joined(front);
        text::lemma_blank(last);
        if text::all_space(last) {
            let b = feed() + last;
            assert forall|i: int| 0 <= i < b.len() implies text::space(#[trigger] b[i]) by {
                if i > 0 {
                    assert(b[i] == last[i - 1]);
                }
            }
            text::lemma_trim_end_spaces(j, b);
            assert(j + b =~= j + feed() + last);
        } else {
            text::lemma_trim_end_add(j + feed(), last);
            lemma_join_push(front, text::trim_end(last), feed());
        }
    }
}

/// What `trim_tail` leaves is blank-free at the end and clean where the lines were.
pub proof fn lemma_trim_tail(ls: Seq<Seq<char>>)
    ensures
        trim_tail(ls).len() <= ls.len(),
        trim_tail(ls).len() > 0 ==> {
            let n = trim_tail(ls).len() as int;
            &&& trim_tail(ls) == ls.take(n - 1).push(text::trim_end(ls[n - 1]))
            &&& !text::all_space(ls[n - 1])
        },
        all_clean(ls) ==> all_clean(trim_tail(ls)),
    decreases ls.len(),
{
    if ls.len() > 0 {
        if text::all_space(ls.last()) {
            lemma_trim_tail(ls.drop_last());
            let n = trim_tail(ls).len() as int;
            if n > 0 {
                assert(ls.drop_last().take(n - 1) =~= ls.take(n - 1));
            }
        } else {
            let n = ls.len() as int;
            assert(ls.drop_last() =~= ls.take(n - 1));
            text::lemma_trim_end(ls.last());
            if all_clean(ls) {
                assert(clean(ls[n - 1]));
                assert forall|i: int| 0 <= i < trim_tail(ls).len() implies clean(
                    #[trigger] trim_tail(ls)[i],
                ) by {
                    if i < n - 1 {
                        assert(clean(ls[i]));
                    }
                }
            }
        }
    }
}

/// The lines that a list of lines has once joined and closed off, each with any
/// carriage return it ends in.
pub open spec fn as_read(ls: Seq<Seq<char>>) -> Seq<Seq<char>> {
    if ls.len() == 0 {
        seq![Seq::empty()]
    } else if ls.len() > 1 && ls.last().len() == 0 {
        ls.drop_last()
    } else {
        ls
    }
}

/// Joined lines end in a line feed only where the last of several is empty.
pub proof fn lemma_joined_end(ls: Seq<Seq<char>>)
    requires
        all_one_line(ls),
    ensures
        ({
            let j = text::join(ls, feed());
            &&& (j.len() > 0 && j.last() == '\n') == (ls.len() > 1 && ls.last().len() == 0)
            &&& ls.len() > 1 && ls.last().len() == 0 ==> j == text::join(ls.drop_last(), feed()).push(
                '\n',
            )
        }),
{
    if ls.len() == 1 {
        if ls[0].len() > 0 {
            assert(ls[0][ls[0].len() - 1] != '\n');
        }
    } else if ls.len() > 1 {
        let j = text::join(ls, feed());
        if ls.last().len() == 0 {
            assert(j =~= text::join(ls.drop_last(), feed()).push('\n'));
        } else {
            assert(j.last() == ls.last().last());
            assert(ls[ls.len() - 1][ls.last().len() - 1] != '\n');
        }
    }
}

/// How lines read once joined and closed off: each without the carriage return it
/// may end in.
pub proof fn lemma_reads(ls: Seq<Seq<char>>)
    requires
        all_one_line(ls),
    ensures
        lines(closed_off(text::join(ls, feed()))) == stripped(as_read(ls)),
        as_read(ls).len() > 0,
{
    let j = text::join(ls, feed());
    lemma_joined_end(ls);
    if ls.len() == 0 {
        let one = seq![Seq::<char>::empty()];
        assert(text::join(one, feed()) =~= j);
        lemma_lines_read_back(one);
    } else if ls.len() > 1 && ls.last().len() == 0 {
        let front = ls.drop_last();
        assert forall|k: int, i: int| 0 <= k < front.len() && 0 <= i < front[k].len() implies
            #[trigger] front[k][i] != '\n' by {
            assert(ls[k][i] != '\n');
        }
        lemma_lines_read_back(front);
    } else {
        lemma_lines_read_back(ls);
    }
}

/// Where the line that a place is on ends.
pub proof fn lemma_feed_from(t: Seq<char>, from: int)
    requires
        0 <= from,
    ensures
        match text::find_from(t, feed(), from) {
            Some(i) => from <= i < t.len() && t[i] == '\n' && forall|j: int|
                from <= j < i ==> t[j] != '\n',
            None => forall|j: int| from <= j < t.len() ==> t[j] != '\n',
        },
{
    text::lemma_find_from(t, feed(), from);
    assert forall|j: int| 0 <= j < t.len() implies text::at(t, feed(), j) == (t[j] == '\n') by {
        assert(t.subrange(j, j + 1) =~= seq![t[j]]);
        assert(t.subrange(j, j + 1)[0] == t[j]);
        assert(feed()[0] == '\n');
    }
    match text::find_from(t, feed(), from) {
        Some(i) => {
            assert forall|j: int| from <= j < i implies t[j] != '\n' by {
                assert(!text::at(t, feed(), j));
            }
        },
        None => {
            assert forall|j: int| from <= j < t.len() implies t[j] != '\n' by {
                assert(!text::at(t, feed(), j));
            }
        },
    }
}

} // verus!
