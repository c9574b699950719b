//! What putting a block in and taking it out promise together.
//!
//! Setting a block and reading it gives the body back; setting it twice is
//! setting it once; the values it sets are the ones a first-wins reader finds,
//! and every other key reads as it did; and clearing it leaves what was there without it, hidden lines put back.

use vstd::prelude::*;
use crate::blocks;
use crate::lines;
use crate::text;

verus! {

/// A name whose markers are lines that trimming leaves as they are.
pub open spec fn good_id(id: Seq<char>) -> bool {
    &&& id.len() > 0
    &&& !text::space(id.last())
    &&& forall|i: int| 0 <= i < id.len() ==> id[i] != '\n'
}

/// Whether a line stands on the block's hiding marker.
pub open spec fn is_hidden(l: Seq<char>, id: Seq<char>) -> bool {
    text::starts(text::trim_start(l), blocks::hidden_marker(id))
}

/// Whether a line is one of the block's markers.
pub open spec fn is_marker(l: Seq<char>, id: Seq<char>) -> bool {
    text::trim(l) == blocks::open_marker(id) || text::trim(l) == blocks::close_marker(id)
}

/// The lines that clearing the block keeps.
pub open spec fn kept(t: Seq<char>, id: Seq<char>) -> Seq<Seq<char>> {
    blocks::outside(lines::lines(blocks::shown(t, id)), id)
}

/// The lines that clearing the block keeps, without the blank ones at the end.
pub open spec fn top(t: Seq<char>, id: Seq<char>) -> Seq<Seq<char>> {
    lines::trim_tail(kept(t, id))
}

/// A text a block can be set in and taken out of again: every block in it that
/// opens also ends, and no line was hidden twice over.
pub open spec fn good_text(t: Seq<char>, id: Seq<char>) -> bool {
    &&& blocks::cleared(t, id) is Some
    &&& forall|i: int| 0 <= i < kept(t, id).len() ==> !is_hidden(#[trigger] kept(t, id)[i], id)
}

/// The lines a body takes up in the file.
pub open spec fn body_lines(body: Seq<char>) -> Seq<Seq<char>> {
    lines::lines(text::trim_end(body).push('\n'))
}

/// A body that can stand in a block: none of its lines is the end marker,
/// hidden or not.
pub open spec fn good_body(body: Seq<char>, id: Seq<char>) -> bool {
    let ls = body_lines(body);
    forall|i: int|
        0 <= i < ls.len() ==> {
            &&& text::trim(#[trigger] ls[i]) != blocks::close_marker(id)
            &&& text::trim(blocks::unhidden(ls[i], blocks::hidden_marker(id)))
                != blocks::close_marker(id)
        }
}

// ---------------------------------------------------------------------------
// Markers
// ---------------------------------------------------------------------------

proof fn lemma_markers(id: Seq<char>)
    requires
        good_id(id),
    ensures
        ({
            let open = blocks::open_marker(id);
            let close = blocks::close_marker(id);
            let hid = blocks::hidden_marker(id);
            &&& open.len() < close.len()
            &&& open.len() < hid.len()
            &&& open[0] == '#' && close[0] == '#' && hid[0] == '#'
            &&& lines::clean(open)
            &&& lines::clean(close)
            &&& forall|i: int| 0 <= i < hid.len() ==> hid[i] != '\n'
            &&& hid.last() == ' '
            &&& text::trim(open) == open
            &&& text::trim(close) == close
            &&& close.len() > open.len() + 1 && close[open.len() as int + 1] == 'e'
            &&& hid.len() > open.len() + 1 && hid[open.len() as int + 1] == 'h'
        }),
{
    reveal_strlit("## moose-patch: ");
    reveal_strlit(" end");
    reveal_strlit(" hid: ");
    let open = blocks::open_marker(id);
    let close = blocks::close_marker(id);
    let hid = blocks::hidden_marker(id);
    assert(open.last() == id.last());
    assert(close.last() == 'd');
    lemma_trims_to_itself(open);
    lemma_trims_to_itself(close);
}

proof fn lemma_trims_to_itself(t: Seq<char>)
    requires
        t.len() > 0,
        !text::space(t[0]),
        !text::space(t.last()),
    ensures
        text::trim(t) == t,
{
    assert(t.take(0) =~= Seq::<char>::empty());
    text::lemma_trim_start_is(t, 0);
    assert(t.skip(0) =~= t);
    assert(t.skip(t.len() as int) =~= Seq::<char>::empty());
    text::lemma_trim_end_is(t, t.len() as int);
    assert(t.take(t.len() as int) =~= t);
}

/// A line that begins with a comment sign begins with it once trimmed.
proof fn lemma_comment(l: Seq<char>)
    requires
        l.len() > 0,
        l[0] == '#',
    ensures
        text::trim_start(l) == l,
        text::trim(l) == text::trim_end(l),
        text::trim(l).len() > 0,
        text::trim(l)[0] == '#',
        blocks::key(l) is None,
{
    assert(l.take(0) =~= Seq::<char>::empty());
    text::lemma_trim_start_is(l, 0);
    assert(l.skip(0) =~= l);
    text::lemma_blank(l);
    assert(!text::all_space(l)) by {
        assert(!text::space(l[0]));
    }
    text::lemma_trim_end(l);
}

/// A hidden line is a comment, is no marker, and comes back as it was.
proof fn lemma_hidden_line(l: Seq<char>, id: Seq<char>)
    requires
        good_id(id),
        !text::all_space(l),
    ensures
        ({
            let h = blocks::hidden_marker(id) + l;
            &&& blocks::key(h) is None
            &&& !is_marker(h, id)
            &&& !text::all_space(h)
            &&& text::trim_end(h) == blocks::hidden_marker(id) + text::trim_end(l)
            &&& blocks::unhidden(h, blocks::hidden_marker(id)) == l
            &&& lines::clean(l) == lines::clean(h)
            &&& lines::strip_return(h) == blocks::hidden_marker(id) + lines::strip_return(l)
            &&& !text::all_space(lines::strip_return(l))
        }),
{
    let hid = blocks::hidden_marker(id);
    let h = hid + l;
    lemma_markers(id);
    lemma_comment(h);
    text::lemma_blank(l);
    text::lemma_blank(h);
    text::lemma_trim_end_add(hid, l);
    let open = blocks::open_marker(id);
    let close = blocks::close_marker(id);
    assert(text::trim(h)[open.len() as int + 1] == 'h');
    assert(text::trim(h).len() > open.len());
    assert(h.take(hid.len() as int) =~= hid);
    assert(h.skip(hid.len() as int) =~= l);
    assert(l.len() > 0);
    assert(h.last() == l.last());
    if lines::clean(h) {
        assert forall|i: int| 0 <= i < l.len() implies l[i] != '\n' by {
            assert(h[hid.len() + i] == l[i]);
        }
    }
    assert(lines::strip_return(h) =~= hid + lines::strip_return(l));
    lemma_return_trims(l);
    text::lemma_blank(lines::strip_return(l));
}

/// A carriage return at the end of a line is white space there.
proof fn lemma_return_trims(l: Seq<char>)
    ensures
        text::trim_end(lines::strip_return(l)) == text::trim_end(l),
        text::trim(lines::strip_return(l)) == text::trim(l),
        text::all_space(lines::strip_return(l)) == text::all_space(l),
{
    text::lemma_trim_commutes(l);
    text::lemma_trim_commutes(lines::strip_return(l));
    text::lemma_blank(l);
    text::lemma_blank(lines::strip_return(l));
}

/// A line that is not hidden stays as it is.
proof fn lemma_not_hidden(l: Seq<char>, id: Seq<char>)
    requires
        !is_hidden(l, id),
    ensures
        blocks::unhidden(l, blocks::hidden_marker(id)) == l,
{
}

/// Trimming a line at its end does not make it hidden, a marker, or set
/// another key.
proof fn lemma_trim_end_line(l: Seq<char>, id: Seq<char>)
    ensures
        is_hidden(text::trim_end(l), id) ==> is_hidden(l, id),
        is_marker(text::trim_end(l), id) == is_marker(l, id),
        blocks::key(text::trim_end(l)) == blocks::key(l),
{
    text::lemma_trim_of_trim_end(l);
    text::lemma_trim_commutes(l);
    let e = text::trim_end(l);
    if is_hidden(e, id) {
        let hid = blocks::hidden_marker(id);
        text::lemma_trim_end(l);
        text::lemma_trim_start(l);
        text::lemma_trim_start(e);
        reveal_strlit("## moose-patch: ");
        assert(hid.len() > 0);
        let n = e.len() - text::trim_start(e).len();
        assert(e.take(n) =~= l.take(n));
        assert(e[n] == l[n]);
        assert(text::trim_start(e)[0] == e[n]);
        text::lemma_trim_start_is(l, n);
        assert(l.skip(n).take(hid.len() as int) =~= e.skip(n).take(hid.len() as int));
    }
}

/// Losing a carriage return does not make a line hidden, or a marker.
proof fn lemma_return_line(l: Seq<char>, id: Seq<char>)
    ensures
        is_hidden(lines::strip_return(l), id) ==> is_hidden(l, id),
        is_marker(lines::strip_return(l), id) == is_marker(l, id),
        blocks::key(lines::strip_return(l)) == blocks::key(l),
{
    lemma_return_trims(l);
    lemma_line_end(lines::strip_return(l), l);
    let e = lines::strip_return(l);
    if is_hidden(e, id) {
        let hid = blocks::hidden_marker(id);
        text::lemma_trim_start(e);
        reveal_strlit("## moose-patch: ");
        assert(hid.len() > 0);
        let n = e.len() - text::trim_start(e).len();
        assert(e.take(n) =~= l.take(n));
        assert(e[n] == l[n]);
        assert(text::trim_start(e)[0] == e[n]);
        text::lemma_trim_start_is(l, n);
        assert(l.skip(n).take(hid.len() as int) =~= e.skip(n).take(hid.len() as int));
    }
}

// ---------------------------------------------------------------------------
// What clearing keeps
// ---------------------------------------------------------------------------

/// What clearing keeps holds no marker of the block, and no line feed where the
/// lines hold none.
proof fn lemma_outside(ls: Seq<Seq<char>>, id: Seq<char>)
    ensures
        forall|i: int|
            0 <= i < blocks::outside(ls, id).len() ==> !is_marker(
                #[trigger] blocks::outside(ls, id)[i],
                id,
            ),
        lines::all_one_line(ls) ==> lines::all_one_line(blocks::outside(ls, id)),
    decreases ls.len(),
{
    if ls.len() > 0 {
        let front = ls.drop_last();
        lemma_outside(front, id);
        if lines::all_one_line(ls) {
            assert forall|k: int, i: int| 0 <= k < front.len() && 0 <= i < front[k].len() implies
                #[trigger] front[k][i] != '\n' by {
                assert(ls[k][i] != '\n');
            }
            let before = blocks::outside(front, id);
            let now = blocks::outside(ls, id);
            assert forall|k: int, i: int| 0 <= k < now.len() && 0 <= i < now[k].len() implies
                #[trigger] now[k][i] != '\n' by {
                if k < before.len() {
                    assert(before[k][i] != '\n');
                } else {
                    assert(ls[ls.len() - 1][i] != '\n');
                }
            }
        }
    }
}

/// Lines that hold no marker are all kept.
proof fn lemma_outside_plain(ls: Seq<Seq<char>>, id: Seq<char>)
    requires
        forall|i: int| 0 <= i < ls.len() ==> !is_marker(#[trigger] ls[i], id),
    ensures
        blocks::outside(ls, id) == ls,
        !blocks::unclosed(ls, id),
    decreases ls.len(),
{
    if ls.len() > 0 {
        let front = ls.drop_last();
        assert forall|i: int| 0 <= i < front.len() implies !is_marker(#[trigger] front[i], id) by {
            assert(!is_marker(ls[i], id));
        }
        lemma_outside_plain(front, id);
        assert(!is_marker(ls[ls.len() - 1], id));
        assert(front.push(ls.last()) =~= ls);
    }
}

/// A block that follows some lines takes nothing from them.
proof fn lemma_outside_block(a: Seq<Seq<char>>, b: Seq<Seq<char>>, id: Seq<char>)
    requires
        good_id(id),
        !blocks::unclosed(a, id),
        forall|i: int| 0 <= i < b.len() ==> text::trim(#[trigger] b[i]) != blocks::close_marker(id),
    ensures
        ({
            let open = blocks::open_marker(id);
            let close = blocks::close_marker(id);
            let opened = a.push(open) + b;
            &&& blocks::outside(opened, id) == blocks::outside(a, id)
            &&& blocks::unclosed(opened, id)
            &&& blocks::outside(opened.push(close), id) == blocks::outside(a, id)
            &&& !blocks::unclosed(opened.push(close), id)
        }),
    decreases b.len(),
{
    lemma_markers(id);
    let open = blocks::open_marker(id);
    let close = blocks::close_marker(id);
    let opened = a.push(open) + b;
    if b.len() == 0 {
        assert(opened =~= a.push(open));
        assert(a.push(open).drop_last() =~= a);
    } else {
        let front = b.drop_last();
        assert forall|i: int| 0 <= i < front.len() implies text::trim(#[trigger] front[i]) != close by {
            assert(text::trim(b[i]) != close);
        }
        lemma_outside_block(a, front, id);
        assert(opened.drop_last() =~= a.push(open) + front);
        assert(text::trim(b[b.len() - 1]) != close);
        assert(opened.last() == b[b.len() - 1]);
    }
    assert(blocks::unclosed(opened, id));
    assert(blocks::outside(opened, id) == blocks::outside(a, id));
    assert(opened.push(close).drop_last() =~= opened);
    assert(opened.push(close).last() == close);
}

/// A text with its blank end shortened: the same lines but for empty ones at
/// the end.
proof fn lemma_short_end(ls: Seq<Seq<char>>) -> (n: int)
    requires
        lines::all_one_line(ls),
    ensures
        0 <= n <= ls.len(),
        blocks::short_end(text::join(ls, lines::feed())) == text::join(ls.take(n), lines::feed()),
        lines::all_one_line(ls.take(n)),
    decreases ls.len(),
{
    let j = text::join(ls, lines::feed());
    lines::lemma_joined_end(ls);
    if j.len() >= 3 && j[j.len() - 1] == '\n' && j[j.len() - 2] == '\n' && j[j.len() - 3] == '\n' {
        let front = ls.drop_last();
        assert forall|k: int, i: int| 0 <= k < front.len() && 0 <= i < front[k].len() implies
            #[trigger] front[k][i] != '\n' by {
            assert(ls[k][i] != '\n');
        }
        assert(j.drop_last() =~= text::join(front, lines::feed()));
        let n = lemma_short_end(front);
        assert(front.take(n) =~= ls.take(n));
        n
    } else {
        assert(ls.take(ls.len() as int) =~= ls);
        ls.len() as int
    }
}

/// Shortening a text at its end, or closing it off, changes nothing before the
/// white space it ends in.
proof fn lemma_end_trims(t: Seq<char>)
    ensures
        text::trim_end(blocks::short_end(t)) == text::trim_end(t),
        text::trim_end(lines::closed_off(t)) == text::trim_end(t),
    decreases t.len(),
{
    if t.len() >= 3 && t[t.len() - 1] == '\n' && t[t.len() - 2] == '\n' && t[t.len() - 3] == '\n' {
        lemma_end_trims(t.drop_last());
    }
    assert(t.push('\n').drop_last() =~= t);
}

/// How a text reads once hidden lines are put back.
proof fn lemma_shown_reads(t: Seq<char>, id: Seq<char>)
    ensures
        ({
            let u = lines::lines(t).map_values(
                |l: Seq<char>| blocks::unhidden(l, blocks::hidden_marker(id)),
            );
            lines::lines(blocks::shown(t, id)) == lines::stripped(lines::as_read(u))
        }),
        lines::all_one_line(lines::lines(blocks::shown(t, id))),
{
    let hid = blocks::hidden_marker(id);
    let ls = lines::lines(t);
    let u = ls.map_values(|l: Seq<char>| blocks::unhidden(l, hid));
    lines::lemma_lines_hold_no_feed(t);
    assert forall|k: int, i: int| 0 <= k < u.len() && 0 <= i < u[k].len() implies #[trigger] u[k][i]
        != '\n' by {
        let l = ls[k];
        text::lemma_trim_start(l);
        let s = text::trim_start(l);
        if text::starts(s, hid) {
            let n = l.len() - s.len() + hid.len();
            assert(u[k] =~= l.skip(n));
            assert(u[k][i] == ls[k][n + i]);
        } else {
            assert(u[k][i] == ls[k][i]);
        }
    }
    lines::lemma_reads(u);
    lines::lemma_lines_hold_no_feed(blocks::shown(t, id));
}

/// Lines that differ in how the last ends trim to the same.
proof fn lemma_tail_like(ls: Seq<Seq<char>>, l: Seq<char>, m: Seq<char>)
    requires
        text::trim_end(l) == text::trim_end(m),
    ensures
        lines::trim_tail(ls.push(l)) == lines::trim_tail(ls.push(m)),
{
    text::lemma_blank(l);
    text::lemma_blank(m);
    assert(ls.push(l).drop_last() =~= ls);
    assert(ls.push(m).drop_last() =~= ls);
}

/// A blank line at the end trims away.
proof fn lemma_tail_blank(ls: Seq<Seq<char>>, l: Seq<char>)
    requires
        text::all_space(l),
    ensures
        lines::trim_tail(ls.push(l)) == lines::trim_tail(ls),
{
    assert(ls.push(l).drop_last() =~= ls);
}

/// The lines of a text, but for blank ones at the end, are those of the text
/// without the white space it ends in.
proof fn lemma_tail_trimmed(t: Seq<char>)
    ensures
        lines::trim_tail(lines::lines(t)) == lines::trim_tail(closed_lines(t)),
        lines::trim_tail(closed_lines(text::trim_end(t))) == lines::trim_tail(closed_lines(t)),
    decreases t.len(),
{
    let f = |l: Seq<char>| lines::strip_return(l);
    lemma_closed_lines(t);
    let ps = text::split(t, '\n');
    let front = ps.drop_last().map_values(f);
    let last = ps.last();
    if last.len() == 0 {
        lemma_return_trims(last);
        lemma_tail_blank(front, lines::strip_return(last));
    } else {
        lemma_tail_like(front, lines::strip_return(last), last);
    }
    if t.len() > 0 && text::space(t.last()) {
        let y = t.drop_last();
        lemma_tail_trimmed(y);
        lemma_closed_lines(y);
        let qs = text::split(y, '\n');
        let before = qs.drop_last().map_values(f);
        let end = qs.last();
        if t.last() == '\n' {
            assert(ps =~= qs.push(Seq::empty()));
            assert(qs.push(Seq::empty()).drop_last() =~= qs);
            assert(qs =~= qs.drop_last().push(end));
            assert(qs.map_values(f) =~= before.push(lines::strip_return(end)));
            lemma_tail_blank(closed_lines(y), lines::strip_return(Seq::empty()));
        } else {
            let more = end.push(t.last());
            assert(ps.drop_last() =~= qs.drop_last());
            assert(more.drop_last() =~= end);
            lemma_return_trims(end);
            lemma_return_trims(more);
            lemma_tail_like(before, lines::strip_return(end), lines::strip_return(more));
        }
    }
}

/// Lines that stand above a block: each is one line, and the last is trimmed at
/// its end and not blank.
spec fn stands(a: Seq<Seq<char>>) -> bool {
    &&& lines::all_one_line(a)
    &&& a.len() > 0 ==> a.last().len() > 0 && !text::space(a.last().last())
}

/// Lines that stand above a block still do without their carriage returns.
proof fn lemma_stands_stripped(a: Seq<Seq<char>>)
    requires
        stands(a),
    ensures
        stands(lines::stripped(a)),
        lines::stripped(a).len() == a.len(),
        a.len() > 0 ==> lines::stripped(a).last() == a.last(),
        lines::trim_tail(a) == a,
{
    let r = lines::stripped(a);
    assert forall|k: int, i: int| 0 <= k < r.len() && 0 <= i < r[k].len() implies #[trigger] r[k][i] != '\n' by {
        assert(a[k][i] != '\n');
    }
    if a.len() > 0 {
        let last = a.last();
        assert(last.last() != '\r');
        assert(last.skip(last.len() as int) =~= Seq::<char>::empty());
        text::lemma_trim_end_is(last, last.len() as int);
        assert(last.take(last.len() as int) =~= last);
        assert(!text::all_space(last)) by {
            assert(!text::space(last[last.len() - 1]));
        }
        assert(a.drop_last().push(last) =~= a);
    }
}

/// The lines of a text that ends in white space after some lines.
proof fn lemma_tail_of(c: Seq<char>, a: Seq<Seq<char>>)
    requires
        stands(a),
        text::trim_end(c) == text::join(a, lines::feed()),
    ensures
        lines::trim_tail(lines::lines(c)) == lines::stripped(a),
{
    lemma_tail_trimmed(c);
    lemma_stands_stripped(a);
    lemma_stands_stripped(lines::stripped(a));
    let j = text::join(a, lines::feed());
    if a.len() > 0 {
        lines::lemma_lines_read_back(a);
    } else {
        let one = seq![Seq::<char>::empty()];
        assert(text::join(one, lines::feed()) =~= j);
        lines::lemma_lines_read_back(one);
        assert(lines::stripped(one) =~= Seq::<Seq<char>>::empty().push(Seq::empty()));
        lemma_tail_blank(Seq::empty(), Seq::empty());
        assert(lines::stripped(a) =~= Seq::<Seq<char>>::empty());
    }
}

/// The core of every law: what is kept, and what clearing leaves of it.
proof fn lemma_top(t: Seq<char>, id: Seq<char>)
    requires
        blocks::cleared(t, id) is Some,
    ensures
        lines::all_one_line(kept(t, id)),
        stands(top(t, id)),
        text::trim_end(blocks::cleared(t, id).unwrap()) == text::join(top(t, id), lines::feed()),
        forall|i: int| 0 <= i < top(t, id).len() ==> !is_marker(#[trigger] top(t, id)[i], id),
        good_text(t, id) ==> forall|i: int|
            0 <= i < top(t, id).len() ==> !is_hidden(#[trigger] top(t, id)[i], id),
{
    let o = kept(t, id);
    let a = top(t, id);
    lemma_shown_reads(t, id);
    lemma_outside(lines::lines(blocks::shown(t, id)), id);
    let j = text::join(o, lines::feed());
    lemma_end_trims(j);
    lemma_end_trims(blocks::short_end(j));
    lines::lemma_trim_joined(o);
    lines::lemma_trim_tail(o);
    assert forall|k: int, i: int| 0 <= k < a.len() && 0 <= i < a[k].len() implies #[trigger] a[k][i] != '\n' by {
        if k == a.len() - 1 {
            text::lemma_trim_end(o[k]);
        }
        assert(o[k][i] != '\n');
    }
    assert forall|i: int| 0 <= i < a.len() implies {
        &&& !is_marker(#[trigger] a[i], id)
        &&& good_text(t, id) ==> !is_hidden(a[i], id)
    } by {
        assert(!is_marker(o[i], id));
        if good_text(t, id) {
            assert(!is_hidden(o[i], id));
        }
        if i == a.len() - 1 {
            lemma_trim_end_line(o[i], id);
        }
    }
    if a.len() > 0 {
        let l = o[a.len() - 1];
        text::lemma_blank(l);
        text::lemma_trim_end(l);
    }
}

/// Hiding lines and trimming the tail go in either order.
proof fn lemma_hide_tail(ls: Seq<Seq<char>>, id: Seq<char>, ks: Seq<Seq<char>>)
    requires
        good_id(id),
    ensures
        ({
            let f = |l: Seq<char>| blocks::hidden(l, blocks::hidden_marker(id), ks);
            lines::trim_tail(ls.map_values(f)) == lines::trim_tail(ls).map_values(f)
        }),
    decreases ls.len(),
{
    let hid = blocks::hidden_marker(id);
    let f = |l: Seq<char>| blocks::hidden(l, hid, ks);
    let m = ls.map_values(f);
    if ls.len() > 0 {
        let last = ls.last();
        assert(m.drop_last() =~= ls.drop_last().map_values(f));
        assert(m.last() == f(last));
        text::lemma_blank(last);
        lemma_trim_end_line(last, id);
        if text::all_space(last) {
            lemma_hide_tail(ls.drop_last(), id, ks);
        } else {
            lemma_hidden_line(last, id);
            let front = ls.drop_last();
            assert(f(text::trim_end(last)) == text::trim_end(f(last)));
            assert(!text::all_space(f(last)));
            assert(lines::trim_tail(m) =~= lines::trim_tail(ls).map_values(f));
        }
    } else {
        assert(m =~= ls);
        assert(lines::trim_tail(ls).map_values(f) =~= lines::trim_tail(m));
    }
}

/// What is kept above a block with some keys, before lines are hidden: with keys to
/// look for, each line is read once more, and loses a carriage return to that.
pub open spec fn looked_through(a: Seq<Seq<char>>, ks: Seq<Seq<char>>) -> Seq<Seq<char>> {
    if ks.len() == 0 {
        a
    } else {
        lines::stripped(a)
    }
}

/// What is written above the block.
pub open spec fn above(t: Seq<char>, id: Seq<char>, body: Seq<char>) -> Seq<Seq<char>> {
    let ks = blocks::keys(lines::lines(body));
    looked_through(top(t, id), ks).map_values(
        |l: Seq<char>| blocks::hidden(l, blocks::hidden_marker(id), ks),
    )
}

/// How a file reads that has some lines and below them the block.
pub open spec fn file_lines(a: Seq<Seq<char>>, id: Seq<char>, body: Seq<char>) -> Seq<Seq<char>> {
    let front = if a.len() > 0 {
        lines::stripped(a).push(Seq::empty())
    } else {
        Seq::empty()
    };
    (front.push(blocks::open_marker(id)) + body_lines(body)).push(blocks::close_marker(id))
}

/// Lines that are hidden where they set some keys, above a block.
proof fn lemma_hidden_lines(a: Seq<Seq<char>>, id: Seq<char>, ks: Seq<Seq<char>>)
    requires
        good_id(id),
        stands(a),
        forall|i: int| 0 <= i < a.len() ==> !is_marker(#[trigger] a[i], id),
    ensures
        ({
            let m = a.map_values(|l: Seq<char>| blocks::hidden(l, blocks::hidden_marker(id), ks));
            &&& stands(m)
            &&& forall|i: int|
                0 <= i < a.len() ==> {
                    &&& !is_marker(#[trigger] m[i], id)
                    &&& blocks::key(m[i]) matches Some(k) ==> !ks.contains(k)
                    &&& !is_hidden(a[i], id) ==> blocks::unhidden(
                        lines::strip_return(m[i]),
                        blocks::hidden_marker(id),
                    ) == lines::strip_return(a[i])
                    &&& lines::clean(m[i]) == lines::clean(a[i])
                }
        }),
{
    let hid = blocks::hidden_marker(id);
    let f = |l: Seq<char>| blocks::hidden(l, hid, ks);
    let m = a.map_values(f);
    lemma_markers(id);
    assert forall|i: int| 0 <= i < a.len() implies {
        &&& !is_marker(#[trigger] m[i], id)
        &&& blocks::key(m[i]) matches Some(k) ==> !ks.contains(k)
        &&& !is_hidden(a[i], id) ==> blocks::unhidden(lines::strip_return(m[i]), hid)
            == lines::strip_return(a[i])
        &&& lines::clean(m[i]) == lines::clean(a[i])
    } by {
        let l = a[i];
        assert(m[i] == f(l));
        assert(!is_marker(l, id));
        text::lemma_blank(l);
        lemma_return_line(l, id);
        if !text::all_space(l) {
            lemma_hidden_line(l, id);
            lemma_hidden_line(lines::strip_return(l), id);
        }
        if !is_hidden(l, id) && m[i] == l {
            lemma_not_hidden(lines::strip_return(l), id);
        }
    }
    assert forall|k: int, i: int| 0 <= k < m.len() && 0 <= i < m[k].len() implies #[trigger] m[k][i] != '\n' by {
        assert(m[k] == f(a[k]));
        if m[k] == a[k] {
            assert(a[k][i] != '\n');
        } else if i >= hid.len() {
            assert(a[k][i - hid.len()] != '\n');
        }
    }
    if a.len() > 0 {
        assert(m[a.len() - 1] == f(a[a.len() - 1]));
    }
}

/// What is written above the block is what was kept, hidden where it sets the
/// block's keys.
proof fn lemma_above(t: Seq<char>, id: Seq<char>, body: Seq<char>)
    requires
        good_id(id),
        blocks::cleared(t, id) is Some,
    ensures
        ({
            let c = blocks::cleared(t, id).unwrap();
            let ks = blocks::keys(lines::lines(body));
            let a = above(t, id, body);
            let was = looked_through(top(t, id), ks);
            &&& text::trim_end(blocks::covered(c, id, ks)) == text::join(a, lines::feed())
            &&& stands(a)
            &&& stands(was)
            &&& a.len() == was.len()
            &&& forall|i: int|
                0 <= i < a.len() ==> {
                    &&& !is_marker(#[trigger] a[i], id)
                    &&& blocks::key(a[i]) matches Some(k) ==> !ks.contains(k)
                    &&& good_text(t, id) ==> blocks::unhidden(
                        lines::strip_return(a[i]),
                        blocks::hidden_marker(id),
                    ) == lines::strip_return(was[i])
                    &&& lines::clean(a[i]) == lines::clean(was[i])
                }
        }),
{
    let c = blocks::cleared(t, id).unwrap();
    lemma_top(t, id);
    lemma_covered(c, top(t, id), id, blocks::keys(lines::lines(body)));
    let ks = blocks::keys(lines::lines(body));
    let was = looked_through(top(t, id), ks);
    lemma_stands_stripped(top(t, id));
    assert forall|i: int| 0 <= i < was.len() implies !is_marker(#[trigger] was[i], id) && (good_text(t, id)
        ==> !is_hidden(was[i], id)) by {
        assert(!is_marker(top(t, id)[i], id));
        lemma_return_line(top(t, id)[i], id);
    }
    lemma_hidden_lines(was, id, ks);
    let a = above(t, id, body);
    assert forall|i: int| 0 <= i < a.len() implies {
        &&& !is_marker(#[trigger] a[i], id)
        &&& blocks::key(a[i]) matches Some(k) ==> !ks.contains(k)
        &&& good_text(t, id) ==> blocks::unhidden(lines::strip_return(a[i]), blocks::hidden_marker(id))
            == lines::strip_return(was[i])
        &&& lines::clean(a[i]) == lines::clean(was[i])
    } by {
        assert(!is_marker(was[i], id));
    }
}

/// A text in which lines are hidden, but for the white space it ends in.
proof fn lemma_covered(c: Seq<char>, a: Seq<Seq<char>>, id: Seq<char>, ks: Seq<Seq<char>>)
    requires
        good_id(id),
        stands(a),
        text::trim_end(c) == text::join(a, lines::feed()),
    ensures
        text::trim_end(blocks::covered(c, id, ks)) == text::join(
            looked_through(a, ks).map_values(
                |l: Seq<char>| blocks::hidden(l, blocks::hidden_marker(id), ks),
            ),
            lines::feed(),
        ),
{
    let f = |l: Seq<char>| blocks::hidden(l, blocks::hidden_marker(id), ks);
    if ks.len() == 0 {
        assert(a.map_values(f) =~= a) by {
            assert forall|i: int| 0 <= i < a.len() implies a.map_values(f)[i] == a[i] by {
                assert(a.map_values(f)[i] == f(a[i]));
            }
        }
    } else {
        lemma_tail_of(c, a);
        lemma_hide_tail(lines::lines(c), id, ks);
        let m = lines::lines(c).map_values(f);
        lines::lemma_trim_joined(m);
        lemma_end_trims(text::join(m, lines::feed()));
    }
}

/// The lines of a file that a block was set in.
proof fn lemma_with_block(rest: Seq<char>, a: Seq<Seq<char>>, id: Seq<char>, body: Seq<char>)
    requires
        good_id(id),
        stands(a),
        text::trim_end(rest) == text::join(a, lines::feed()),
    ensures
        lines::lines(blocks::with_block(rest, id, body)) == file_lines(a, id, body),
{
    lemma_markers(id);
    reveal_strlit("\n\n");
    let open = blocks::open_marker(id);
    let close = blocks::close_marker(id);
    let empty = Seq::<char>::empty();
    let j = text::join(a, lines::feed());
    let b = text::trim_end(body).push('\n');
    let front = if a.len() > 0 {
        a.push(empty)
    } else {
        a
    };
    let head = front.push(open);
    let whole = blocks::with_block(rest, id, body);
    if a.len() > 0 {
        lines::lemma_join_push(a, empty, lines::feed());
        lines::lemma_join_push(a.push(empty), open, lines::feed());
        assert(j.len() > 0) by {
            if a.len() > 1 {
                assert(j.len() >= a.last().len());
            }
        }
        assert(text::join(head, lines::feed()) =~= j + "\n\n"@ + open);
    } else {
        assert(head =~= seq![open]);
        assert(j =~= empty);
        assert(text::join(head, lines::feed()) =~= j + open);
    }
    assert forall|k: int, i: int| 0 <= k < head.len() && 0 <= i < head[k].len() implies #[trigger] head[k][i]
        != '\n' by {
        if k < a.len() {
            assert(a[k][i] != '\n');
        } else {
            assert(head[k] == open || head[k] == empty);
        }
    }
    lines::lemma_lines_read_back(head);
    let read = if a.len() > 0 {
        lines::stripped(a).push(empty)
    } else {
        Seq::empty()
    };
    assert(lines::stripped(head) =~= read.push(open));
    let h = text::join(head, lines::feed());
    assert(whole =~= h.push('\n') + (b + close.push('\n')));
    lines::lemma_lines_add(h, b + close.push('\n'));
    lines::lemma_lines_add(text::trim_end(body), close.push('\n'));
    let one = seq![close];
    assert(text::join(one, lines::feed()) =~= close);
    lines::lemma_lines_of_joined(one);
    assert(lines::lines(whole) =~= (read.push(open) + body_lines(body)).push(close));
}

/// The body of a block takes up at least one line.
proof fn lemma_body_lines(body: Seq<char>)
    ensures
        body_lines(body).len() > 0,
{
    let t = text::trim_end(body);
    lines::lemma_split_at(t, Seq::empty(), '\n');
    assert(t.push('\n') + Seq::<char>::empty() =~= t.push('\n'));
    text::lemma_split_len(t, '\n');
}

// ---------------------------------------------------------------------------
// The laws
// ---------------------------------------------------------------------------

/// A file that a block was set in is what was kept, hidden where it sets the
/// block's keys, then a blank line, then the block.
proof fn lemma_set(t: Seq<char>, id: Seq<char>, body: Seq<char>)
    requires
        good_id(id),
        blocks::cleared(t, id) is Some,
    ensures
        blocks::block_set(t, id, body) is Some,
        lines::lines(blocks::block_set(t, id, body).unwrap()) == file_lines(
            above(t, id, body),
            id,
            body,
        ),
{
    lemma_above(t, id, body);
    let c = blocks::cleared(t, id).unwrap();
    let ks = blocks::keys(lines::lines(body));
    lemma_with_block(blocks::covered(c, id, ks), above(t, id, body), id, body);
}

proof fn lemma_no_mark(ls: Seq<Seq<char>>, marker: Seq<char>)
    requires
        forall|i: int| 0 <= i < ls.len() ==> text::trim(#[trigger] ls[i]) != marker,
    ensures
        blocks::first_marked(ls, marker) is None,
    decreases ls.len(),
{
    if ls.len() > 0 {
        let front = ls.drop_last();
        assert forall|i: int| 0 <= i < front.len() implies text::trim(#[trigger] front[i]) != marker by {
            assert(text::trim(ls[i]) != marker);
        }
        lemma_no_mark(front, marker);
        assert(text::trim(ls[ls.len() - 1]) != marker);
    }
}

/// Reading a block gives back the body it was set to.
pub proof fn law_read_gives_back_what_was_set(t: Seq<char>, id: Seq<char>, body: Seq<char>)
    requires
        good_id(id),
        blocks::cleared(t, id) is Some,
        good_body(body, id),
    ensures
        blocks::block_set(t, id, body) is Some,
        blocks::block_body(blocks::block_set(t, id, body).unwrap(), id) == Some(
            text::join(body_lines(body), lines::feed()),
        ),
        !body.contains('\r') ==> text::join(body_lines(body), lines::feed()) == text::trim_end(body),
{
    lemma_set(t, id, body);
    lemma_above(t, id, body);
    lemma_markers(id);
    lemma_body_lines(body);
    let a = above(t, id, body);
    let b = body_lines(body);
    let open = blocks::open_marker(id);
    let close = blocks::close_marker(id);
    let front = if a.len() > 0 {
        lines::stripped(a).push(Seq::empty())
    } else {
        Seq::empty()
    };
    let ls = file_lines(a, id, body);
    let n = ls.len() - 1;
    let m = front.len() as int;
    text::lemma_blank(Seq::empty());
    assert forall|i: int| 0 <= i < front.len() implies text::trim(#[trigger] front[i]) != open
        && text::trim(front[i]) != close by {
        if i < a.len() {
            assert(!is_marker(a[i], id));
            lemma_return_line(a[i], id);
        }
    }
    assert(ls.take(m + 1).drop_last() =~= front);
    assert(ls.take(m + 1).last() == open);
    lemma_no_mark(front, open);
    assert(blocks::first_marked(ls.take(m + 1), open) == Some(m));
    blocks::lemma_first_marked_prefix(ls, m + 1, open);
    let below = ls.skip(m + 1);
    assert(below =~= b.push(close));
    assert(below.drop_last() =~= b);
    lemma_no_mark(b, close);
    assert(blocks::first_marked(below, close) == Some(b.len() as int));
    assert(ls.subrange(m + 1, n) =~= b);
    if !body.contains('\r') {
        let e = text::trim_end(body);
        text::lemma_trim_end(body);
        lines::lemma_split_at(e, Seq::empty(), '\n');
        assert(e.push('\n') + Seq::<char>::empty() =~= e.push('\n'));
        let ps = text::split(e, '\n');
        text::lemma_split_len(e, '\n');
        assert(text::split(e.push('\n'), '\n') =~= ps.push(Seq::empty()));
        lines::lemma_join_split(e, '\n');
        assert(ps.push(Seq::empty()).drop_last() =~= ps);
        lemma_pieces_hold(e, '\n', '\r');
        assert(b =~= ps) by {
            assert forall|k: int| 0 <= k < ps.len() implies b[k] == ps[k] by {
                if ps[k].len() > 0 {
                    assert(ps[k][ps[k].len() - 1] != '\r');
                }
            }
        }
    }
}

/// A character that a text does not hold is in no piece of it.
proof fn lemma_pieces_hold(t: Seq<char>, c: char, x: char)
    requires
        !t.contains(x),
    ensures
        forall|k: int, i: int|
            0 <= k < text::split(t, c).len() && 0 <= i < text::split(t, c)[k].len()
                ==> #[trigger] text::split(t, c)[k][i] != x,
    decreases t.len(),
{
    if t.len() > 0 {
        assert(!t.drop_last().contains(x)) by {
            if t.drop_last().contains(x) {
                let i = t.drop_last().index_of(x);
                assert(t[i] == x);
            }
        }
        lemma_pieces_hold(t.drop_last(), c, x);
        text::lemma_split_len(t.drop_last(), c);
        assert(t.last() != x) by {
            assert(t.contains(t[t.len() - 1]));
        }
    }
}

/// How often a line is read on the way into the file and out again does not show
/// but in its carriage returns.
spec fn twice_stripped(a: Seq<Seq<char>>) -> Seq<Seq<char>> {
    lines::stripped(lines::stripped(a))
}

/// What is left of a file that a block was set in once the block is cleared.
proof fn lemma_cleared_set(t: Seq<char>, id: Seq<char>, body: Seq<char>)
    requires
        good_id(id),
        good_text(t, id),
        good_body(body, id),
    ensures
        ({
            let o = blocks::block_set(t, id, body).unwrap();
            let was = looked_through(top(t, id), blocks::keys(lines::lines(body)));
            &&& stands(twice_stripped(was))
            &&& blocks::cleared(o, id) == Some(text::join(twice_stripped(was), lines::feed()).push('\n'))
        }),
{
    lemma_set(t, id, body);
    lemma_above(t, id, body);
    lemma_markers(id);
    let a = above(t, id, body);
    let was = looked_through(top(t, id), blocks::keys(lines::lines(body)));
    let b = body_lines(body);
    let open = blocks::open_marker(id);
    let close = blocks::close_marker(id);
    let hid = blocks::hidden_marker(id);
    let empty = Seq::<char>::empty();
    let o = blocks::block_set(t, id, body).unwrap();
    let ls = file_lines(a, id, body);
    let once = lines::stripped(was);
    let end = twice_stripped(was);
    lemma_stands_stripped(was);
    lemma_stands_stripped(once);
    let f = |l: Seq<char>| blocks::unhidden(l, hid);
    let g = |l: Seq<char>| lines::strip_return(l);
    let u = ls.map_values(f);
    let ub = b.map_values(f);
    let rb = ub.map_values(g);
    let shown_front = if was.len() > 0 {
        once.push(empty)
    } else {
        Seq::empty()
    };
    let read_front = if was.len() > 0 {
        end.push(empty)
    } else {
        Seq::empty()
    };
    assert(text::trim_start(empty) =~= empty);
    lemma_comment(open);
    lemma_comment(close);
    assert(f(empty) == empty);
    assert(f(open) == open);
    assert(f(close) == close) by {
        if text::starts(close, hid) {
            assert(close.take(hid.len() as int)[open.len() as int + 1] == hid[open.len() as int + 1]);
        }
    }
    let m = shown_front.len() as int;
    assert(u =~= (shown_front.push(open) + ub).push(close)) by {
        let w = (shown_front.push(open) + ub).push(close);
        assert(u.len() == w.len());
        assert forall|i: int| 0 <= i < u.len() implies u[i] == w[i] by {
            assert(u[i] == f(ls[i]));
            if i < a.len() {
                assert(ls[i] == lines::strip_return(a[i]));
                assert(w[i] == lines::strip_return(was[i]));
            } else if m < i < ls.len() - 1 {
                assert(ls[i] == b[i - m - 1]);
            }
        }
    }
    // How the lines read once they are back.
    let read = (read_front.push(open) + rb).push(close);
    lemma_shown_reads(o, id);
    assert(u.last() == close);
    assert(lines::as_read(u) == u);
    assert(lines::stripped(u) =~= read) by {
        assert forall|i: int| 0 <= i < u.len() implies g(u[i]) == read[i] by {
            if i < m {
                assert(u[i] == shown_front[i]);
            } else if m < i < u.len() - 1 {
                assert(u[i] == ub[i - m - 1]);
            }
        }
    }
    text::lemma_blank(empty);
    assert forall|i: int| 0 <= i < read_front.len() implies !is_marker(#[trigger] read_front[i], id) by {
        if i < was.len() {
            assert(!is_marker(a[i], id));
            lemma_top(t, id);
            assert(!is_marker(top(t, id)[i], id));
            lemma_return_line(top(t, id)[i], id);
            lemma_return_line(was[i], id);
            lemma_return_line(once[i], id);
        }
    }
    lemma_outside_plain(read_front, id);
    assert forall|i: int| 0 <= i < rb.len() implies text::trim(#[trigger] rb[i]) != close by {
        assert(text::trim(b[i]) != close);
        lemma_return_trims(ub[i]);
    }
    lemma_outside_block(read_front, rb, id);
    let j = text::join(read_front, lines::feed());
    let jt = text::join(end, lines::feed());
    if was.len() > 0 {
        lines::lemma_join_push(end, empty, lines::feed());
        assert(j =~= jt.push('\n'));
        assert(jt.last() == end.last().last()) by {
            if end.len() > 1 {
                assert(jt =~= text::join(end.drop_last(), lines::feed()) + lines::feed() + end.last());
            }
        }
        assert(jt.len() > 0);
        assert(blocks::short_end(j) == j);
    } else {
        assert(j =~= empty);
        assert(jt =~= empty);
    }
}

/// A block that was set can be taken out again.
pub proof fn law_what_was_set_can_be_cleared(t: Seq<char>, id: Seq<char>, body: Seq<char>)
    requires
        good_id(id),
        good_text(t, id),
        good_body(body, id),
    ensures
        blocks::block_set(t, id, body) is Some,
        blocks::cleared(blocks::block_set(t, id, body).unwrap(), id) is Some,
{
    lemma_set(t, id, body);
    lemma_cleared_set(t, id, body);
}

/// Taking a block out undoes putting it in: what is left is what was there
/// without the block, with every hidden line back, up to how the text ends; where
/// none of those lines ends in a carriage return of its own.
pub proof fn law_clear_undoes_set(t: Seq<char>, id: Seq<char>, body: Seq<char>)
    requires
        good_id(id),
        good_text(t, id),
        good_body(body, id),
        lines::all_clean(top(t, id)),
    ensures
        blocks::block_set(t, id, body) is Some,
        blocks::cleared(blocks::block_set(t, id, body).unwrap(), id) == Some(
            text::trim_end(blocks::cleared(t, id).unwrap()).push('\n'),
        ),
{
    lemma_set(t, id, body);
    lemma_cleared_set(t, id, body);
    lemma_top(t, id);
    lines::lemma_clean(top(t, id));
}

/// What comes after the lines that trimming leaves is blank.
proof fn lemma_tail_is_blank(ls: Seq<Seq<char>>)
    ensures
        forall|i: int| lines::trim_tail(ls).len() <= i < ls.len() ==> text::all_space(#[trigger] ls[i]),
    decreases ls.len(),
{
    if ls.len() > 0 && text::all_space(ls.last()) {
        lemma_tail_is_blank(ls.drop_last());
        assert forall|i: int| lines::trim_tail(ls).len() <= i < ls.len() implies text::all_space(
            #[trigger] ls[i],
        ) by {
            if i < ls.len() - 1 {
                assert(ls.drop_last()[i] == ls[i]);
            }
        }
    }
}

/// What is kept of some lines begins with what is kept of the first of them, and
/// goes on with others. All are kept where as many are.
proof fn lemma_outside_prefix(ls: Seq<Seq<char>>, m: int, id: Seq<char>)
    requires
        0 <= m <= ls.len(),
    ensures
        ({
            let some = blocks::outside(ls.take(m), id);
            let all = blocks::outside(ls, id);
            &&& some.len() <= m
            &&& some.len() == m ==> some == ls.take(m)
            &&& some.len() <= all.len()
            &&& all.take(some.len() as int) == some
            &&& forall|i: int|
                some.len() <= i < all.len() ==> exists|j: int| m <= j < ls.len() && #[trigger] all[i] == ls[j]
        }),
    decreases ls.len(),
{
    let some = blocks::outside(ls.take(m), id);
    let all = blocks::outside(ls, id);
    if m == ls.len() {
        assert(ls.take(m) =~= ls);
        assert(all.take(some.len() as int) =~= some);
        if m > 0 {
            let front = ls.drop_last();
            lemma_outside_prefix(front, m - 1, id);
            assert(front.take(m - 1) =~= front);
            if some.len() == m {
                assert(front.push(ls.last()) =~= ls);
            }
        }
    } else {
        let front = ls.drop_last();
        lemma_outside_prefix(front, m, id);
        assert(front.take(m) =~= ls.take(m));
        let before = blocks::outside(front, id);
        assert(all.take(some.len() as int) =~= before.take(some.len() as int));
        assert forall|i: int| some.len() <= i < all.len() implies exists|j: int|
            m <= j < ls.len() && #[trigger] all[i] == ls[j] by {
            if i < before.len() {
                let j = choose|j: int| m <= j < front.len() && before[i] == front[j];
                assert(all[i] == before[i]);
                assert(all[i] == ls[j]);
            } else {
                assert(all[i] == ls[ls.len() - 1]);
            }
        }
    }
}

/// A text that clearing leaves as it is, but for how it ends, has no line that ends
/// in a carriage return of its own.
pub proof fn law_what_clearing_leaves_ends_plain(t: Seq<char>, id: Seq<char>)
    requires
        blocks::cleared(t, id) is Some,
        text::trim_end(blocks::cleared(t, id).unwrap()) == text::trim_end(t),
    ensures
        lines::all_clean(top(t, id)),
{
    lemma_top(t, id);
    let a = top(t, id);
    let n = a.len() as int;
    let k = kept(t, id);
    let ls = lines::lines(t);
    let hid = blocks::hidden_marker(id);
    let u = ls.map_values(|l: Seq<char>| blocks::unhidden(l, hid));
    let raw = lines::as_read(u);
    let r = lines::lines(blocks::shown(t, id));
    lemma_shown_reads(t, id);
    lemma_tail_of(t, a);
    lemma_stands_stripped(a);
    lines::lemma_trim_tail(ls);
    lines::lemma_trim_tail(k);
    lemma_tail_is_blank(ls);
    lemma_outside_prefix(r, r.len() as int, id);
    assert(r.take(r.len() as int) =~= r);
    if n > 0 {
        lemma_outside_prefix(r, n, id);
        // What comes after as many lines as are kept is blank, so those are kept.
        assert forall|j: int| n <= j < r.len() implies text::all_space(#[trigger] r[j]) by {
            lemma_return_trims(raw[j]);
            assert(text::all_space(ls[j]));
            text::lemma_blank(ls[j]);
            lemma_unhidden_shrinks(ls[j], id);
            assert(u[j] == ls[j]);
        }
        assert(!text::all_space(k[n - 1]));
        let some = blocks::outside(r.take(n), id);
        if some.len() < n {
            let j = choose|j: int| n <= j < r.len() && k[n - 1] == r[j];
            assert(text::all_space(r[j]));
        }
        assert(k.take(n) =~= r.take(n));
    }
    assert forall|i: int| 0 <= i < n implies lines::clean(#[trigger] a[i]) by {
        assert forall|c: int| 0 <= c < a[i].len() implies a[i][c] != '\n' by {}
        if i < n - 1 {
            assert(a[i] == k[i]);
            assert(k.take(n)[i] == r.take(n)[i]);
            assert(r[i] == lines::strip_return(raw[i]));
            assert(raw[i] == u[i]);
            assert(ls[i] == lines::strip_return(a[i])) by {
                assert(lines::trim_tail(ls)[i] == lines::stripped(a)[i]);
            }
            lemma_unhidden_shrinks(ls[i], id);
        } else {
            assert(a[i] == a.last());
        }
    }
}

/// Putting a hidden line back makes it shorter, and leaves a blank line alone.
proof fn lemma_unhidden_shrinks(l: Seq<char>, id: Seq<char>)
    ensures
        blocks::unhidden(l, blocks::hidden_marker(id)).len() <= l.len(),
        text::all_space(l) ==> blocks::unhidden(l, blocks::hidden_marker(id)) == l,
{
    let hid = blocks::hidden_marker(id);
    text::lemma_trim_start(l);
    text::lemma_blank(l);
    reveal_strlit("## moose-patch: ");
    assert(hid.len() > 0);
    if text::all_space(l) {
        let s = text::trim_start(l);
        if s.len() > 0 {
            assert(s[0] == l[l.len() - s.len()]);
        }
    }
}

/// A file that no block ever touched comes back exactly: clearing a block that
/// was never there changes nothing, and setting one and clearing it leaves the
/// file as it was.
pub proof fn law_clear_restores_exactly(ls: Seq<Seq<char>>, id: Seq<char>, body: Seq<char>)
    requires
        good_id(id),
        good_body(body, id),
        ls.len() > 0,
        lines::all_clean(ls),
        ls.last().len() > 0,
        !text::space(ls.last().last()),
        forall|i: int|
            0 <= i < ls.len() ==> !is_marker(#[trigger] ls[i], id) && !is_hidden(ls[i], id),
    ensures
        ({
            let t = text::join(ls, lines::feed()).push('\n');
            &&& blocks::cleared(t, id) == Some(t)
            &&& blocks::block_set(t, id, body) is Some
            &&& blocks::cleared(blocks::block_set(t, id, body).unwrap(), id) == Some(t)
        }),
{
    let t = text::join(ls, lines::feed()).push('\n');
    let hid = blocks::hidden_marker(id);
    lines::lemma_lines_of_joined(ls);
    lines::lemma_clean(ls);
    lemma_shown_reads(t, id);
    let u = ls.map_values(|l: Seq<char>| blocks::unhidden(l, hid));
    assert(u =~= ls) by {
        assert forall|i: int| 0 <= i < ls.len() implies u[i] == ls[i] by {
            lemma_not_hidden(ls[i], id);
        }
    }
    lemma_outside_plain(ls, id);
    let j = text::join(ls, lines::feed());
    lines::lemma_joined_end(ls);
    assert(blocks::short_end(j) == j);
    let last = ls.last();
    assert(last.skip(last.len() as int) =~= Seq::<char>::empty());
    text::lemma_trim_end_is(last, last.len() as int);
    assert(last.take(last.len() as int) =~= last);
    assert(!text::all_space(last)) by {
        assert(!text::space(last[last.len() - 1]));
    }
    assert(lines::trim_tail(ls) =~= ls);
    lines::lemma_trim_joined(ls);
    assert(t.drop_last() =~= j);
    law_clear_undoes_set(t, id, body);
}

/// Setting a block replaces what it was set to before, and setting it to the
/// same again changes nothing; where no line that is written above the block ends
/// in a carriage return of its own.
pub proof fn law_set_replaces(t: Seq<char>, id: Seq<char>, first: Seq<char>, second: Seq<char>)
    requires
        good_id(id),
        good_text(t, id),
        good_body(first, id),
        lines::all_clean(above(t, id, second)),
    ensures
        blocks::block_set(t, id, first) is Some,
        blocks::block_set(t, id, second) is Some,
        blocks::block_set(blocks::block_set(t, id, first).unwrap(), id, second) == blocks::block_set(
            t,
            id,
            second,
        ),
{
    lemma_set(t, id, first);
    lemma_cleared_set(t, id, first);
    lemma_above(t, id, second);
    lemma_top(t, id);
    let one = blocks::keys(lines::lines(first));
    let two = blocks::keys(lines::lines(second));
    let a = top(t, id);
    let was = looked_through(a, two);
    assert(lines::all_clean(was)) by {
        assert forall|i: int| 0 <= i < was.len() implies lines::clean(#[trigger] was[i]) by {
            assert(lines::clean(above(t, id, second)[i]));
        }
    }
    lines::lemma_clean(was);
    let left = twice_stripped(looked_through(a, one));
    assert(looked_through(left, two) == was) by {
        if two.len() > 0 {
            assert(lines::stripped(left) =~= was);
        }
    }
    let c = text::join(left, lines::feed()).push('\n');
    assert(c.drop_last() =~= text::join(left, lines::feed()));
    lines::lemma_trim_joined(left);
    lemma_stands_stripped(left);
    lemma_covered(c, left, id, two);
}

// ---------------------------------------------------------------------------
// First wins
// ---------------------------------------------------------------------------

/// Some lines set the same keys to the same values as others.
pub open spec fn same_settings(a: Seq<Seq<char>>, b: Seq<Seq<char>>) -> bool {
    &&& blocks::keys(a) == blocks::keys(b)
    &&& forall|k: Seq<char>| #[trigger] blocks::setting(a, k) == blocks::setting(b, k)
}

proof fn lemma_find_char(t: Seq<char>, c: char)
    ensures
        match text::find(t, seq![c]) {
            Some(i) => 0 <= i < t.len() && t[i] == c && forall|j: int| 0 <= j < i ==> t[j] != c,
            None => forall|j: int| 0 <= j < t.len() ==> t[j] != c,
        },
{
    text::lemma_find_from(t, seq![c], 0);
    assert forall|j: int| 0 <= j < t.len() implies (text::at(t, seq![c], j) == (t[j] == c)) by {
        assert(t.subrange(j, j + 1) =~= seq![t[j]]);
        assert(t.subrange(j, j + 1)[0] == t[j]);
        assert(seq![c][0] == c);
    }
    match text::find(t, seq![c]) {
        Some(i) => {
            assert forall|j: int| 0 <= j < i implies t[j] != c by {
                assert(!text::at(t, seq![c], j));
            }
        },
        None => {
            assert forall|j: int| 0 <= j < t.len() implies t[j] != c by {
                assert(!text::at(t, seq![c], j));
            }
        },
    }
}

/// White space at the end of a line changes neither its key nor its value.
proof fn lemma_line_end(l: Seq<char>, m: Seq<char>)
    requires
        text::trim_end(l) == text::trim_end(m),
    ensures
        blocks::key(l) == blocks::key(m),
        blocks::value(l) == blocks::value(m),
{
    text::lemma_trim_of_trim_end(l);
    text::lemma_trim_of_trim_end(m);
    lemma_value_end(l);
    lemma_value_end(m);
}

proof fn lemma_value_end(l: Seq<char>)
    ensures
        blocks::value(l) == blocks::value(text::trim_end(l)),
{
    let e = text::trim_end(l);
    text::lemma_trim_end(l);
    lemma_find_char(l, '=');
    lemma_find_char(e, '=');
    let n = e.len() as int;
    assert forall|j: int| n <= j < l.len() implies l[j] != '=' by {
        assert(l.skip(n)[j - n] == l[j]);
    }
    match text::find(l, seq!['=']) {
        Some(i) => {
            assert(e[i] == l[i]);
            let a = e.skip(i + 1);
            let b = l.skip(n);
            assert(l.skip(i + 1) =~= a + b);
            text::lemma_trim_end_spaces(a, b);
            text::lemma_trim_commutes(a);
            text::lemma_trim_commutes(a + b);
            assert(text::find(e, seq!['=']) == Some(i)) by {
                assert forall|j: int| 0 <= j < i implies e[j] != '=' by {
                    assert(l[j] != '=');
                }
            }
        },
        None => {
            assert(text::find(e, seq!['=']) is None) by {
                assert forall|j: int| 0 <= j < e.len() implies e[j] != '=' by {
                    assert(l[j] != '=');
                }
            }
        },
    }
}

proof fn lemma_first_setting_bound(ls: Seq<Seq<char>>, k: Seq<char>)
    ensures
        blocks::first_setting(ls, k) matches Some(i) ==> 0 <= i < ls.len() && blocks::key(ls[i])
            == Some(k),
    decreases ls.len(),
{
    if ls.len() > 0 {
        lemma_first_setting_bound(ls.drop_last(), k);
    }
}

/// A line that differs in how it ends sets the same.
proof fn lemma_settings_like(ls: Seq<Seq<char>>, l: Seq<char>, m: Seq<char>)
    requires
        text::trim_end(l) == text::trim_end(m),
    ensures
        same_settings(ls.push(l), ls.push(m)),
{
    lemma_line_end(l, m);
    assert(ls.push(l).drop_last() =~= ls);
    assert(ls.push(m).drop_last() =~= ls);
    assert forall|k: Seq<char>| #[trigger]
        blocks::setting(ls.push(l), k) == blocks::setting(ls.push(m), k) by {
        lemma_first_setting_bound(ls, k);
    }
}

/// A line without a key sets nothing.
proof fn lemma_settings_without(ls: Seq<Seq<char>>, l: Seq<char>)
    requires
        blocks::key(l) is None,
    ensures
        same_settings(ls.push(l), ls),
{
    assert(ls.push(l).drop_last() =~= ls);
    assert forall|k: Seq<char>| #[trigger] blocks::setting(ls.push(l), k) == blocks::setting(ls, k) by {
        lemma_first_setting_bound(ls, k);
    }
}

/// The lines of a text closed off with a line feed.
spec fn closed_lines(t: Seq<char>) -> Seq<Seq<char>> {
    lines::lines(t.push('\n'))
}

proof fn lemma_closed_lines(t: Seq<char>)
    ensures
        ({
            let ps = text::split(t, '\n');
            let f = |l: Seq<char>| lines::strip_return(l);
            &&& ps.len() > 0
            &&& closed_lines(t) == ps.drop_last().map_values(f).push(lines::strip_return(ps.last()))
            &&& text::trim_end(lines::strip_return(ps.last())) == text::trim_end(ps.last())
        }),
{
    let ps = text::split(t, '\n');
    let f = |l: Seq<char>| lines::strip_return(l);
    text::lemma_split_len(t, '\n');
    lines::lemma_split_at(t, Seq::empty(), '\n');
    assert(t.push('\n') + Seq::<char>::empty() =~= t.push('\n'));
    assert(text::split(t.push('\n'), '\n') =~= ps.push(Seq::empty()));
    assert(ps.push(Seq::empty()).drop_last() =~= ps);
    assert(closed_lines(t) =~= ps.drop_last().map_values(f).push(lines::strip_return(ps.last())));
}

/// Whether a text ends in a line feed makes no difference to what it sets.
proof fn lemma_settings_closed(t: Seq<char>)
    ensures
        same_settings(closed_lines(t), lines::lines(t)),
{
    lemma_closed_lines(t);
    let ps = text::split(t, '\n');
    let f = |l: Seq<char>| lines::strip_return(l);
    let front = ps.drop_last().map_values(f);
    let last = ps.last();
    if last.len() == 0 {
        text::lemma_blank(lines::strip_return(last));
        lemma_settings_without(front, lines::strip_return(last));
    } else {
        lemma_settings_like(front, lines::strip_return(last), last);
    }
}

/// White space at the end of a text makes no difference to what it sets.
proof fn lemma_settings_trimmed(t: Seq<char>)
    ensures
        same_settings(closed_lines(text::trim_end(t)), closed_lines(t)),
    decreases t.len(),
{
    if t.len() > 0 && text::space(t.last()) {
        let y = t.drop_last();
        lemma_settings_trimmed(y);
        lemma_closed_lines(y);
        lemma_closed_lines(t);
        let ps = text::split(y, '\n');
        let f = |l: Seq<char>| lines::strip_return(l);
        let front = ps.drop_last().map_values(f);
        let last = ps.last();
        if t.last() == '\n' {
            assert(text::split(t, '\n') =~= ps.push(Seq::empty()));
            assert(ps.push(Seq::empty()).drop_last() =~= ps);
            assert(ps =~= ps.drop_last().push(last));
            assert(ps.map_values(f) =~= front.push(lines::strip_return(last)));
            let none = lines::strip_return(Seq::empty());
            text::lemma_blank(none);
            lemma_settings_without(closed_lines(y), none);
        } else {
            let more = last.push(t.last());
            assert(text::split(t, '\n').drop_last() =~= ps.drop_last());
            assert(more.drop_last() =~= last);
            lemma_settings_like(front, lines::strip_return(last), lines::strip_return(more));
        }
    }
}

/// Lines that do not set a key do not hide the ones after them that do.
proof fn lemma_settings_after(a: Seq<Seq<char>>, b: Seq<Seq<char>>, k: Seq<char>)
    requires
        forall|i: int| 0 <= i < a.len() ==> blocks::key(#[trigger] a[i]) != Some(k),
    ensures
        blocks::setting(a + b, k) == blocks::setting(b, k),
        blocks::first_setting(b, k) is None ==> blocks::first_setting(a + b, k) is None,
        blocks::first_setting(b, k) matches Some(i) ==> blocks::first_setting(a + b, k) == Some(
            a.len() + i,
        ),
    decreases a.len() + b.len(),
{
    lemma_first_setting_bound(b, k);
    if b.len() > 0 {
        lemma_settings_after(a, b.drop_last(), k);
        lemma_first_setting_bound(b.drop_last(), k);
        assert((a + b).drop_last() =~= a + b.drop_last());
    } else {
        assert(a + b =~= a);
        if a.len() > 0 {
            let front = a.drop_last();
            assert forall|i: int| 0 <= i < front.len() implies blocks::key(#[trigger] front[i])
                != Some(k) by {
                assert(blocks::key(a[i]) != Some(k));
            }
            lemma_settings_after(front, b, k);
            assert(front + b =~= front);
            assert(blocks::key(a[a.len() - 1]) != Some(k));
        }
    }
}

/// Every key a block sets reads, in the file it was set in, as the value the
/// block gives it: whatever the file set it to above is hidden.
pub proof fn law_set_is_in_force(t: Seq<char>, id: Seq<char>, body: Seq<char>)
    requires
        good_id(id),
        blocks::cleared(t, id) is Some,
    ensures
        blocks::block_set(t, id, body) is Some,
        blocks::holds(
            lines::lines(blocks::block_set(t, id, body).unwrap()),
            lines::lines(body),
        ),
{
    lemma_set(t, id, body);
    lemma_above(t, id, body);
    lemma_markers(id);
    let a = above(t, id, body);
    let b = body_lines(body);
    let open = blocks::open_marker(id);
    let close = blocks::close_marker(id);
    let front = if a.len() > 0 {
        lines::stripped(a).push(Seq::empty())
    } else {
        Seq::empty()
    };
    let head = front.push(open);
    let ks = blocks::keys(lines::lines(body));
    lemma_settings_closed(body);
    lemma_settings_trimmed(body);
    lemma_comment(open);
    lemma_comment(close);
    text::lemma_blank(Seq::empty());
    lemma_settings_without(head + b, close);
    assert forall|j: int| 0 <= j < ks.len() implies blocks::setting(
        file_lines(a, id, body),
        #[trigger] ks[j],
    ) == blocks::setting(lines::lines(body), ks[j]) by {
        let k = ks[j];
        assert(ks.contains(k));
        assert forall|i: int| 0 <= i < head.len() implies blocks::key(#[trigger] head[i]) != Some(k) by {
            if i < a.len() {
                assert(!is_marker(a[i], id));
                lemma_return_line(a[i], id);
            }
        }
        lemma_settings_after(head, b, k);
        assert(blocks::setting(closed_lines(body), k) == blocks::setting(lines::lines(body), k));
        assert(blocks::setting(b, k) == blocks::setting(closed_lines(body), k));
        assert(blocks::setting((head + b).push(close), k) == blocks::setting(head + b, k));
    }
}

/// Lines that agree on a key, one by one, agree on how it reads: they differ at most
/// in how they end, or neither sets it.
proof fn lemma_settings_agree(a: Seq<Seq<char>>, b: Seq<Seq<char>>, k: Seq<char>)
    requires
        a.len() == b.len(),
        forall|i: int| 0 <= i < a.len() ==> agree_on(#[trigger] a[i], b[i], k),
    ensures
        blocks::first_setting(a, k) == blocks::first_setting(b, k),
        blocks::setting(a, k) == blocks::setting(b, k),
    decreases a.len(),
{
    lemma_first_setting_bound(a, k);
    lemma_first_setting_bound(b, k);
    if a.len() > 0 {
        let x = a.drop_last();
        let y = b.drop_last();
        assert forall|i: int| 0 <= i < x.len() implies agree_on(#[trigger] x[i], y[i], k) by {
            assert(agree_on(a[i], b[i], k));
        }
        lemma_settings_agree(x, y, k);
        let n = a.len() - 1;
        assert(agree_on(a[n], b[n], k));
        if text::trim_end(a[n]) == text::trim_end(b[n]) {
            lemma_line_end(a[n], b[n]);
        }
        match blocks::first_setting(a, k) {
            Some(i) => {
                assert(agree_on(a[i], b[i], k));
                if text::trim_end(a[i]) == text::trim_end(b[i]) {
                    lemma_line_end(a[i], b[i]);
                }
            },
            None => {},
        }
    }
}

/// Whether two lines agree on a key.
spec fn agree_on(a: Seq<char>, b: Seq<char>, k: Seq<char>) -> bool {
    ||| text::trim_end(a) == text::trim_end(b)
    ||| blocks::key(a) != Some(k) && blocks::key(b) != Some(k)
}

/// Lines after others do not change what the others set, where they do not set
/// the key themselves.
proof fn lemma_settings_before(a: Seq<Seq<char>>, b: Seq<Seq<char>>, k: Seq<char>)
    requires
        forall|i: int| 0 <= i < b.len() ==> blocks::key(#[trigger] b[i]) != Some(k),
    ensures
        blocks::setting(a + b, k) == blocks::setting(a, k),
    decreases b.len(),
{
    if b.len() > 0 {
        let front = b.drop_last();
        assert forall|i: int| 0 <= i < front.len() implies blocks::key(#[trigger] front[i]) != Some(k) by {
            assert(blocks::key(b[i]) != Some(k));
        }
        lemma_settings_before(a, front, k);
        assert((a + b).drop_last() =~= a + front);
        assert(blocks::key(b[b.len() - 1]) != Some(k));
        lemma_first_setting_bound(a + front, k);
    } else {
        assert(a + b =~= a);
    }
}

/// The keys of some lines are those that read as set in them.
proof fn lemma_keys_are_set(ls: Seq<Seq<char>>, k: Seq<char>)
    ensures
        blocks::keys(ls).contains(k) <==> blocks::setting(ls, k) is Some,
    decreases ls.len(),
{
    lemma_first_setting_bound(ls, k);
    if ls.len() > 0 {
        let rest = blocks::keys(ls.drop_last());
        lemma_keys_are_set(ls.drop_last(), k);
        lemma_first_setting_bound(ls.drop_last(), k);
        match blocks::key(ls.last()) {
            Some(x) => {
                let all = rest.push(x);
                if rest.contains(k) {
                    assert(all[rest.index_of(k)] == k);
                }
                if x == k {
                    assert(all[rest.len() as int] == k);
                }
                if all.contains(k) && x != k {
                    let i = all.index_of(k);
                    assert(rest[i] == k);
                }
            },
            None => {},
        }
    }
}

/// Where a key reads as unset, no line sets it.
proof fn lemma_unset_lines(ls: Seq<Seq<char>>, k: Seq<char>)
    requires
        blocks::setting(ls, k) is None,
    ensures
        forall|i: int| 0 <= i < ls.len() ==> blocks::key(#[trigger] ls[i]) != Some(k),
    decreases ls.len(),
{
    if ls.len() > 0 {
        lemma_unset_lines(ls.drop_last(), k);
        assert forall|i: int| 0 <= i < ls.len() implies blocks::key(#[trigger] ls[i]) != Some(k) by {
            if i < ls.len() - 1 {
                assert(ls.drop_last()[i] == ls[i]);
            }
        }
    }
}

/// A key that a block does not set reads, in the file the block was set in, as
/// it does in the file without the block.
pub proof fn law_set_leaves_other_keys(t: Seq<char>, id: Seq<char>, body: Seq<char>, k: Seq<char>)
    requires
        good_id(id),
        blocks::cleared(t, id) is Some,
        !blocks::keys(lines::lines(body)).contains(k),
    ensures
        blocks::block_set(t, id, body) is Some,
        blocks::setting(lines::lines(blocks::block_set(t, id, body).unwrap()), k) == blocks::setting(
            lines::lines(blocks::cleared(t, id).unwrap()),
            k,
        ),
{
    lemma_set(t, id, body);
    lemma_above(t, id, body);
    lemma_top(t, id);
    lemma_markers(id);
    let c = blocks::cleared(t, id).unwrap();
    let ks = blocks::keys(lines::lines(body));
    let hid = blocks::hidden_marker(id);
    let f = |l: Seq<char>| blocks::hidden(l, hid, ks);
    let tops = top(t, id);
    let was = looked_through(tops, ks);
    let a = above(t, id, body);
    let read = lines::stripped(a);
    let b = body_lines(body);
    let open = blocks::open_marker(id);
    let close = blocks::close_marker(id);
    let empty = Seq::<char>::empty();
    // Below what was kept, nothing sets the key.
    lemma_keys_are_set(lines::lines(body), k);
    lemma_settings_closed(body);
    lemma_settings_trimmed(body);
    assert(blocks::setting(closed_lines(body), k) == blocks::setting(lines::lines(body), k));
    assert(blocks::setting(b, k) == blocks::setting(closed_lines(body), k));
    lemma_unset_lines(b, k);
    lemma_comment(open);
    lemma_comment(close);
    text::lemma_blank(empty);
    let blank = if a.len() > 0 {
        seq![empty]
    } else {
        Seq::<Seq<char>>::empty()
    };
    let tail = (blank.push(open) + b).push(close);
    assert forall|i: int| 0 <= i < tail.len() implies blocks::key(#[trigger] tail[i]) != Some(k) by {
        let m = blank.len() as int;
        if m < i < tail.len() - 1 {
            assert(tail[i] == b[i - m - 1]);
        }
    }
    assert(file_lines(a, id, body) =~= read + tail);
    lemma_settings_before(read, tail, k);
    // What is hidden of what was kept sets other keys.
    assert forall|i: int| 0 <= i < read.len() implies agree_on(#[trigger] read[i], tops[i], k) by {
        assert(a[i] == f(was[i]));
        lemma_return_trims(a[i]);
        lemma_return_trims(tops[i]);
        lemma_return_line(a[i], id);
        lemma_return_line(tops[i], id);
        match blocks::key(was[i]) {
            Some(x) => {
                if ks.contains(x) {
                    lemma_comment(hid + was[i]);
                }
            },
            None => {},
        }
    }
    lemma_settings_agree(read, tops, k);
    // And what was kept is the cleared file but for how its lines end.
    lemma_settings_closed(c);
    lemma_settings_trimmed(c);
    assert(blocks::setting(closed_lines(c), k) == blocks::setting(lines::lines(c), k));
    assert(blocks::setting(closed_lines(text::trim_end(c)), k) == blocks::setting(closed_lines(c), k));
    let plain = lines::stripped(tops);
    assert forall|i: int| 0 <= i < plain.len() implies agree_on(#[trigger] plain[i], tops[i], k) by {
        lemma_return_trims(tops[i]);
    }
    lemma_settings_agree(plain, tops, k);
    if tops.len() > 0 {
        lines::lemma_lines_read_back(tops);
    } else {
        assert(text::trim_end(c) =~= empty);
        let one = seq![empty];
        assert(text::join(one, lines::feed()) =~= empty);
        lines::lemma_lines_of_joined(one);
        lemma_settings_without(Seq::empty(), empty);
        assert(Seq::<Seq<char>>::empty().push(empty) =~= one);
        assert(tops =~= Seq::<Seq<char>>::empty());
        assert(blocks::setting(one, k) == blocks::setting(tops, k));
    }
}

/// A text that a block was cleared from holds none, and clearing it again is
/// no trouble.
pub proof fn law_cleared_has_no_block(t: Seq<char>, id: Seq<char>)
    requires
        good_id(id),
        good_text(t, id),
    ensures
        blocks::block_body(blocks::cleared(t, id).unwrap(), id) is None,
        blocks::cleared(blocks::cleared(t, id).unwrap(), id) is Some,
{
    lemma_shown_reads(t, id);
    lemma_outside(lines::lines(blocks::shown(t, id)), id);
    lemma_markers(id);
    let o = kept(t, id);
    let n = lemma_short_end(o);
    let some = o.take(n);
    lines::lemma_reads(some);
    let c = blocks::cleared(t, id).unwrap();
    let ls = lines::lines(c);
    let raw = lines::as_read(some);
    assert(ls == lines::stripped(raw));
    text::lemma_blank(Seq::empty());
    assert forall|i: int| 0 <= i < ls.len() implies !is_marker(#[trigger] ls[i], id) && !is_hidden(
        ls[i],
        id,
    ) by {
        assert(ls[i] == lines::strip_return(raw[i]));
        lemma_return_line(raw[i], id);
        if some.len() > 0 {
            assert(raw[i] == o[i]);
            assert(!is_marker(o[i], id));
            assert(!is_hidden(o[i], id));
        } else {
            assert(text::trim_start(Seq::<char>::empty()) =~= Seq::<char>::empty());
        }
    }
    lemma_plain_has_no_block(c, id);
}

/// Where no line is a marker or hidden there is no block, and nothing that
/// clearing it would refuse.
proof fn lemma_plain_has_no_block(t: Seq<char>, id: Seq<char>)
    requires
        forall|i: int|
            0 <= i < lines::lines(t).len() ==> !is_marker(#[trigger] lines::lines(t)[i], id)
                && !is_hidden(lines::lines(t)[i], id),
        good_id(id),
    ensures
        blocks::block_body(t, id) is None,
        blocks::cleared(t, id) is Some,
{
    let ls = lines::lines(t);
    let open = blocks::open_marker(id);
    assert forall|i: int| 0 <= i < ls.len() implies text::trim(#[trigger] ls[i]) != open by {
        assert(!is_marker(ls[i], id));
    }
    lemma_no_mark(ls, open);
    lemma_shown_reads(t, id);
    lemma_markers(id);
    let u = ls.map_values(|l: Seq<char>| blocks::unhidden(l, blocks::hidden_marker(id)));
    assert(u =~= ls) by {
        assert forall|i: int| 0 <= i < ls.len() implies u[i] == ls[i] by {
            assert(!is_hidden(ls[i], id));
            lemma_not_hidden(ls[i], id);
        }
    }
    let raw = lines::as_read(ls);
    let r = lines::stripped(raw);
    text::lemma_blank(Seq::empty());
    assert forall|i: int| 0 <= i < r.len() implies !is_marker(#[trigger] r[i], id) by {
        lemma_return_line(raw[i], id);
        if ls.len() > 0 {
            assert(!is_marker(ls[i], id));
        }
    }
    lemma_outside_plain(r, id);
}

/// No text at all holds no block.
pub proof fn law_nothing_has_no_block(id: Seq<char>)
    requires
        good_id(id),
    ensures
        blocks::block_body(Seq::empty(), id) is None,
        blocks::cleared(Seq::empty(), id) is Some,
{
    assert(lines::lines(Seq::empty()) =~= Seq::empty());
    lemma_plain_has_no_block(Seq::empty(), id);
}

/// One block leaves alone what another hid: a line that stands on another block's
/// hiding marker is no line that this block hid or would hide, and none of its
/// markers.
pub proof fn law_what_another_block_hid_stands(line: Seq<char>, ks: Seq<Seq<char>>, other: Seq<char>, id: Seq<char>)
    requires
        other != id,
        !other.contains(' '),
        !id.contains(' '),
    ensures
        ({
            let l = blocks::hidden_marker(other) + line;
            &&& blocks::unhidden(l, blocks::hidden_marker(id)) == l
            &&& blocks::hidden(l, blocks::hidden_marker(id), ks) == l
            &&& !is_marker(l, id)
        }),
{
    reveal_strlit("## moose-patch: ");
    reveal_strlit(" hid: ");
    reveal_strlit(" end");
    let l = blocks::hidden_marker(other) + line;
    let n = "## moose-patch: "@.len() as int;
    assert(l[0] == '#' && l[n + other.len()] == ' ');
    assert(!text::space('#'));
    assert(text::trim_start(l) == l);
    let t = text::trim_end(l);
    text::lemma_trim_end(l);
    text::lemma_trim_commutes(l);
    let colon = n + other.len() + 4;
    assert(l[colon] == ':' && !text::space(l[colon]));
    assert(t.len() > colon) by {
        if t.len() <= colon {
            assert(l.skip(t.len() as int)[colon - t.len()] == ':');
        }
    }
    assert(text::trim(l) == t);
    assert(t[0] == '#');
    // Up to its first blank, what follows the words is one id or the other.
    let m = "## moose-patch: "@ + id;
    if text::starts(l, m) && l.len() > m.len() && (l[m.len() as int] == ' ') {
        assert(l.skip(n).take(other.len() as int) =~= other);
        assert(l.skip(n).take(id.len() as int) =~= id) by {
            assert(l.take(m.len() as int) == m);
            assert forall|i: int| 0 <= i < id.len() implies l.skip(n)[i] == id[i] by {
                assert(l.take(m.len() as int)[n + i] == m[n + i]);
            }
        }
        lemma_first_word(l.skip(n), other, id);
    }
    if text::starts(l, blocks::hidden_marker(id)) {
        assert(text::starts(l, m)) by {
            assert(blocks::hidden_marker(id).take(m.len() as int) =~= m);
            assert(l.take(m.len() as int) =~= m);
        }
        assert(l[m.len() as int] == blocks::hidden_marker(id)[m.len() as int]);
    }
    if t == blocks::open_marker(id) {
        assert(t[n + other.len()] == ' ');
        assert(id[other.len() as int] == ' ');
    }
    if t == blocks::close_marker(id) {
        assert(l.take(m.len() as int) =~= m);
        assert(l[m.len() as int] == t[m.len() as int]);
    }
}

/// Two words without a blank that a text begins with, each with a blank after it,
/// are the same word.
proof fn lemma_first_word(t: Seq<char>, a: Seq<char>, b: Seq<char>)
    requires
        !a.contains(' '),
        !b.contains(' '),
        t.len() > a.len(),
        t.len() > b.len(),
        t.take(a.len() as int) == a,
        t.take(b.len() as int) == b,
        t[a.len() as int] == ' ',
        t[b.len() as int] == ' ',
    ensures
        a == b,
{
    if a.len() < b.len() {
        assert(b[a.len() as int] == t.take(b.len() as int)[a.len() as int]);
        assert(b.contains(' '));
    } else if b.len() < a.len() {
        assert(a[b.len() as int] == t.take(a.len() as int)[b.len() as int]);
        assert(a.contains(' '));
    }
}

} // verus!
