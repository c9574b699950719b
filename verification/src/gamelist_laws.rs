//! What starring a game promises: the list reads as it did, but for that star.

use vstd::prelude::*;
use crate::disk;
use crate::disk::Disk;
use crate::disk::Seen;
use crate::gamelist;
use crate::gamelist::Game;
use crate::gamelist::Gamelist;
use crate::lines;
use crate::text;
use crate::xml;

verus! {

/// What a list says of a game: its ROM, and whether it is a favourite.
pub struct Mark {
    pub file: Seq<char>,
    pub starred: bool,
}

/// What a list says of each of some games.
pub open spec fn marks(gs: Seq<Game>) -> Seq<Mark> {
    gs.map_values(|g: Game| Mark { file: g.file, starred: g.starred })
}

/// What a list says, game by game.
pub open spec fn reads(t: Seq<char>) -> Seq<Mark> {
    marks(gamelist::games(t))
}

// ---------------------------------------------------------------------------
// What stands where does not depend on what is elsewhere
// ---------------------------------------------------------------------------

proof fn lemma_at_after(p: Seq<char>, q: Seq<char>, needle: Seq<char>, i: int)
    requires
        0 <= i,
    ensures
        text::at(p + q, needle, p.len() + i) == text::at(q, needle, i),
{
    if i + needle.len() <= q.len() {
        assert((p + q).subrange(p.len() + i, p.len() + i + needle.len()) =~= q.subrange(
            i,
            i + needle.len(),
        ));
    }
}

proof fn lemma_find_after(p: Seq<char>, q: Seq<char>, needle: Seq<char>, i: int)
    requires
        0 <= i,
    ensures
        text::find_from(p + q, needle, p.len() + i) == match text::find_from(q, needle, i) {
            Some(k) => Some(p.len() + k),
            None => None,
        },
    decreases q.len() + 1 - i,
{
    lemma_at_after(p, q, needle, i);
    if i + needle.len() <= q.len() && !text::at(q, needle, i) {
        lemma_find_after(p, q, needle, i + 1);
    }
}

proof fn lemma_opens_after(p: Seq<char>, q: Seq<char>, i: int)
    requires
        0 <= i,
    ensures
        gamelist::opens(p + q, p.len() + i) == gamelist::opens(q, i),
{
    lemma_at_after(p, q, "<game"@, i);
}

proof fn lemma_game_after(p: Seq<char>, q: Seq<char>, i: int)
    requires
        0 <= i,
    ensures
        gamelist::game_from(p + q, p.len() + i) == match gamelist::game_from(q, i) {
            Some(k) => Some(p.len() + k),
            None => None,
        },
    decreases q.len() - i,
{
    if i < q.len() {
        lemma_opens_after(p, q, i);
        if !gamelist::opens(q, i) {
            lemma_game_after(p, q, i + 1);
        }
    }
}

proof fn lemma_block_after(p: Seq<char>, q: Seq<char>, i: int)
    requires
        0 <= i,
    ensures
        gamelist::block_from(p + q, p.len() + i) == match gamelist::block_from(q, i) {
            Some((s, e)) => Some((p.len() + s, p.len() + e)),
            None => None,
        },
{
    lemma_game_after(p, q, i);
    gamelist::lemma_game_from(q, i);
    match gamelist::game_from(q, i) {
        Some(s) => {
            lemma_find_after(p, q, "</game>"@, s);
        },
        None => {},
    }
}

/// What a list says from a place on depends on what follows alone.
proof fn lemma_marks_after(p: Seq<char>, q: Seq<char>, i: int)
    requires
        0 <= i,
    ensures
        marks(gamelist::games_from(p + q, p.len() + i)) == marks(gamelist::games_from(q, i)),
    decreases q.len() - i,
{
    lemma_block_after(p, q, i);
    gamelist::lemma_block_from(q, i);
    match gamelist::block_from(q, i) {
        Some((s, e)) => {
            lemma_marks_after(p, q, e);
            assert((p + q).subrange(p.len() + s, p.len() + e) =~= q.subrange(s, e));
            match gamelist::game_of(q, s, e) {
                Some(g) => {
                    let h = gamelist::game_of(p + q, p.len() + s, p.len() + e).unwrap();
                    let rest = gamelist::games_from(q, e);
                    let more = gamelist::games_from(p + q, p.len() + e);
                    lemma_marks_cons(g, rest);
                    lemma_marks_cons(h, more);
                },
                None => {},
            }
        },
        None => {},
    }
}

proof fn lemma_marks_cons(g: Game, gs: Seq<Game>)
    ensures
        marks(seq![g] + gs) == seq![Mark { file: g.file, starred: g.starred }] + marks(gs),
{
    assert(marks(seq![g] + gs) =~= seq![Mark { file: g.file, starred: g.starred }] + marks(gs));
}

proof fn lemma_at_before(t: Seq<char>, u: Seq<char>, needle: Seq<char>, i: int, n: int)
    requires
        0 <= n <= t.len(),
        n <= u.len(),
        t.take(n) == u.take(n),
        i + needle.len() <= n,
    ensures
        text::at(t, needle, i) == text::at(u, needle, i),
{
    if 0 <= i {
        let m = i + needle.len();
        assert(t.subrange(i, m) =~= t.take(n).subrange(i, m));
        assert(u.subrange(i, m) =~= u.take(n).subrange(i, m));
    }
}

/// A block that ends in what two texts have in common is a block of both.
proof fn lemma_block_before(t: Seq<char>, u: Seq<char>, from: int, n: int)
    requires
        0 <= from,
        0 <= n <= t.len(),
        n <= u.len(),
        t.take(n) == u.take(n),
        gamelist::block_from(t, from) matches Some((s, e)) && e <= n,
    ensures
        gamelist::block_from(u, from) == gamelist::block_from(t, from),
{
    gamelist::lemma_block_from(t, from);
    reveal_strlit("<game");
    reveal_strlit("</game>");
    let (s, e) = gamelist::block_from(t, from).unwrap();
    text::lemma_find_from(t, "</game>"@, s);
    assert(s + 6 <= n) by {
        // The closing tag stands after the six characters a block opens with.
        if e - 7 < s + 1 {
            assert(t.subrange(s, s + 5)[1] == t[s + 1]);
            assert(t.subrange(e - 7, e)[1] == t[e - 6]);
        }
    }
    assert forall|i: int| from <= i <= s implies gamelist::opens(t, i) == gamelist::opens(u, i) by {
        lemma_at_before(t, u, "<game"@, i, n);
        assert(t.take(n)[i + 5] == t[i + 5] && u.take(n)[i + 5] == u[i + 5]);
    }
    lemma_game_from_is(u, from, s);
    assert forall|i: int| s <= i < e - 7 implies !text::at(u, "</game>"@, i) by {
        lemma_at_before(t, u, "</game>"@, i, n);
    }
    lemma_at_before(t, u, "</game>"@, e - 7, n);
    text::lemma_find_is(u, "</game>"@, s, e - 7);
}

proof fn lemma_game_from_is(t: Seq<char>, from: int, s: int)
    requires
        0 <= from <= s,
        gamelist::opens(t, s),
        forall|i: int| from <= i < s ==> !gamelist::opens(t, i),
    ensures
        gamelist::game_from(t, from) == Some(s),
{
    gamelist::lemma_game_from(t, from);
}

// ---------------------------------------------------------------------------
// One block for another
// ---------------------------------------------------------------------------

/// A text that is one block from its first character to its last.
pub open spec fn is_block(b: Seq<char>) -> bool {
    gamelist::opens(b, 0) && text::find(b, "</game>"@) == Some(b.len() - 7)
}

/// What stands where a block was found is a block.
proof fn lemma_is_block(t: Seq<char>, from: int)
    requires
        0 <= from,
    ensures
        gamelist::block_from(t, from) matches Some((s, e)) ==> is_block(t.subrange(s, e)),
{
    gamelist::lemma_block_from(t, from);
    match gamelist::block_from(t, from) {
        Some((s, e)) => {
            reveal_strlit("<game");
            reveal_strlit("</game>");
            let b = t.subrange(s, e);
            let p = t.take(s);
            text::lemma_find_from(t, "</game>"@, s);
            assert(t.subrange(e - 7, e)[1] == '/') by {
                assert(text::at(t, "</game>"@, e - 7));
            }
            assert(b.len() > 6) by {
                assert(text::at(t, "<game"@, s));
                assert(t.subrange(s, s + 5)[1] == t[s + 1]);
                assert(t.subrange(e - 7, e)[1] == t[e - 6]);
            }
            assert(t.take(e) =~= (p + b).take(e));
            lemma_opens_after(p, b, 0);
            lemma_at_before(t, p + b, "<game"@, s, e);
            assert((p + b)[s + 5] == t[s + 5]);
            assert forall|i: int| 0 <= i <= b.len() - 7 implies text::at(b, "</game>"@, i) == text::at(
                t,
                "</game>"@,
                s + i,
            ) by {
                assert(b.subrange(i, i + 7) =~= t.subrange(s + i, s + i + 7));
            }
            text::lemma_find_is(b, "</game>"@, 0, b.len() - 7);
        },
        None => {},
    }
}

/// Another block in the place of the first is the first.
proof fn lemma_first_block_swapped(pre: Seq<char>, b: Seq<char>, c: Seq<char>, rest: Seq<char>, from: int)
    requires
        0 <= from <= pre.len(),
        gamelist::block_from(pre + b + rest, from) == Some(
            (pre.len() as int, (pre.len() + b.len()) as int),
        ),
        is_block(c),
    ensures
        gamelist::block_from(pre + c + rest, from) == Some(
            (pre.len() as int, (pre.len() + c.len()) as int),
        ),
{
    reveal_strlit("<game");
    reveal_strlit("</game>");
    let t = pre + b + rest;
    let u = pre + c + rest;
    let s = pre.len() as int;
    gamelist::lemma_block_from(t, from);
    assert(u =~= pre + (c + rest));
    assert(t =~= pre + (b + rest));
    lemma_opens_after(pre, c + rest, 0);
    assert(text::at(c, "<game"@, 0));
    assert(c.take(c.len() as int) =~= (c + rest).take(c.len() as int));
    lemma_at_before(c, c + rest, "<game"@, 0, c.len() as int);
    assert(gamelist::opens(c + rest, 0));
    // What a block opens with is the same in both, as far as it can reach.
    let n = s + 5;
    assert(t.take(n) =~= u.take(n)) by {
        assert(text::at(t, "<game"@, s));
        assert(t.subrange(s, s + 5) =~= "<game"@);
        assert(c.subrange(0, 5) =~= "<game"@);
        assert forall|i: int| 0 <= i < n implies t[i] == u[i] by {
            if i >= s {
                assert(t.subrange(s, s + 5)[i - s] == t[i]);
                assert(c.subrange(0, 5)[i - s] == c[i - s]);
            }
        }
    }
    assert forall|i: int| from <= i < s implies !gamelist::opens(u, i) by {
        assert(!gamelist::opens(t, i));
        lemma_at_before(t, u, "<game"@, i, n);
        assert(t.take(n)[i + 5] == u.take(n)[i + 5] || i + 5 >= n);
    }
    lemma_game_from_is(u, from, s);
    text::lemma_find_from(c, "</game>"@, 0);
    assert forall|i: int| 0 <= i < c.len() - 7 implies !text::at(c + rest, "</game>"@, i) by {
        lemma_at_before(c, c + rest, "</game>"@, i, c.len() as int);
    }
    lemma_at_before(c, c + rest, "</game>"@, c.len() - 7, c.len() as int);
    text::lemma_find_is(c + rest, "</game>"@, 0, c.len() - 7);
    lemma_find_after(pre, c + rest, "</game>"@, 0);
}

/// The games of a list begin where they were looked for or later, inside the
/// text.
proof fn lemma_games_bounds(t: Seq<char>, from: int)
    requires
        0 <= from,
    ensures
        forall|k: int|
            0 <= k < gamelist::games_from(t, from).len() ==> from <= (
            #[trigger] gamelist::games_from(t, from)[k]).start && gamelist::games_from(t, from)[k].start
                + 7 <= gamelist::games_from(t, from)[k].end <= t.len(),
    decreases t.len() - from,
{
    gamelist::lemma_block_from(t, from);
    match gamelist::block_from(t, from) {
        Some((s, e)) => {
            lemma_games_bounds(t, e);
        },
        None => {},
    }
}

/// A list in which one block was exchanged for another reads as it did, but
/// for that block.
proof fn lemma_swap(t: Seq<char>, from: int, k: int, c: Seq<char>)
    requires
        0 <= from,
        0 <= k < gamelist::games_from(t, from).len(),
        is_block(c),
        gamelist::file_in(c) is Some,
    ensures
        ({
            let g = gamelist::games_from(t, from)[k];
            let u = gamelist::splice(t, g.start, g.end, c);
            &&& marks(gamelist::games_from(u, from)) == marks(gamelist::games_from(t, from)).update(
                k,
                Mark { file: gamelist::file_in(c).unwrap(), starred: gamelist::starred_in(c) },
            )
            &&& gamelist::game_of(u, g.start, g.start + c.len()) == Some(
                gamelist::games_from(u, from)[k],
            )
        }),
    decreases t.len() - from,
{
    let gs = gamelist::games_from(t, from);
    let g = gs[k];
    let u = gamelist::splice(t, g.start, g.end, c);
    gamelist::lemma_block_from(t, from);
    lemma_games_bounds(t, from);
    let (s, e) = gamelist::block_from(t, from).unwrap();
    let here = gamelist::game_of(t, s, e);
    let m = Mark { file: gamelist::file_in(c).unwrap(), starred: gamelist::starred_in(c) };
    if here is Some && k == 0 {
        let pre = t.take(s);
        let b = t.subrange(s, e);
        let rest = t.skip(e);
        assert(t =~= pre + b + rest);
        assert(u =~= pre + c + rest);
        lemma_first_block_swapped(pre, b, c, rest, from);
        let e2 = s + c.len();
        assert(u.subrange(s, e2) =~= c);
        assert(u =~= (pre + c) + rest);
        assert(t =~= (pre + b) + rest);
        lemma_marks_after(pre + c, rest, 0);
        lemma_marks_after(pre + b, rest, 0);
        let h = gamelist::game_of(u, s, e2).unwrap();
        lemma_marks_cons(h, gamelist::games_from(u, e2));
        lemma_marks_cons(here.unwrap(), gamelist::games_from(t, e));
        assert(marks(gamelist::games_from(u, from)) =~= marks(gs).update(k, m));
    } else {
        lemma_games_bounds(t, e);
        let rest = gamelist::games_from(t, e);
        let j = if here is Some {
            k - 1
        } else {
            k
        };
        assert(rest[j] == g);
        let n = g.start;
        assert(t.take(n) =~= u.take(n));
        lemma_block_before(t, u, from, n);
        assert(t.subrange(s, e) =~= u.subrange(s, e)) by {
            assert forall|i: int| s <= i < e implies t[i] == u[i] by {
                assert(t.take(n)[i] == u.take(n)[i]);
            }
        }
        lemma_swap(t, e, j, c);
        if here is Some {
            let h = gamelist::game_of(u, s, e).unwrap();
            lemma_marks_cons(h, gamelist::games_from(u, e));
            lemma_marks_cons(here.unwrap(), rest);
            assert(marks(gamelist::games_from(u, from)) =~= marks(gs).update(k, m));
        }
    }
}

// ---------------------------------------------------------------------------
// What the edits do to a block
// ---------------------------------------------------------------------------

/// A tag: it begins with the only angle bracket that opens in it, ends with the
/// only one that closes, and holds no white space.
spec fn is_tag(p: Seq<char>) -> bool {
    &&& p.len() > 0
    &&& p[0] == '<'
    &&& forall|j: int| 0 <= j < p.len() - 1 ==> p[j] != '>'
    &&& forall|j: int| 1 <= j < p.len() ==> p[j] != '<'
    &&& forall|j: int| 0 <= j < p.len() ==> !text::space(#[trigger] p[j])
}

/// The element that says that a game is a favourite.
spec fn mark() -> Seq<char> {
    "<favorite>true</favorite>"@
}

proof fn lemma_tags()
    ensures
        is_tag("<path>"@),
        is_tag("</path>"@),
        is_tag("<favorite>"@),
        is_tag("</favorite>"@),
        is_tag("</game>"@),
        "<path>"@.len() == 6,
        "</path>"@.len() == 7,
        "<favorite>"@.len() == 10,
        "</favorite>"@.len() == 11,
        "</game>"@.len() == 7,
        mark().len() == 25,
        mark()[0] == '<',
        mark().subrange(0, 10) == "<favorite>"@,
        mark().subrange(14, 25) == "</favorite>"@,
        mark().subrange(10, 14) == "true"@,
        forall|j: int| 0 <= j < 25 && j != 0 && j != 14 ==> mark()[j] != '<',
{
    reveal_strlit("<path>");
    reveal_strlit("</path>");
    reveal_strlit("<favorite>");
    reveal_strlit("</favorite>");
    reveal_strlit("</game>");
    reveal_strlit("true");
    reveal_strlit("<favorite>true</favorite>");
    assert(mark().subrange(0, 10) =~= "<favorite>"@);
    assert(mark().subrange(14, 25) =~= "</favorite>"@);
    assert(mark().subrange(10, 14) =~= "true"@);
}

/// No tag but its own stands in the element.
proof fn lemma_in_mark(t: Seq<char>, m: int, i: int, p: Seq<char>)
    requires
        0 <= m,
        m + 25 <= t.len(),
        t.subrange(m, m + 25) == mark(),
        m <= i < m + 25,
        p == "<path>"@ || p == "</path>"@ || p == "<favorite>"@ || p == "</favorite>"@ || p
            == "</game>"@,
        text::at(t, p, i),
    ensures
        (p == "<favorite>"@ && i == m) || (p == "</favorite>"@ && i == m + 14),
{
    lemma_tags();
    reveal_strlit("<path>");
    reveal_strlit("</path>");
    reveal_strlit("<favorite>");
    reveal_strlit("</favorite>");
    reveal_strlit("</game>");
    reveal_strlit("<favorite>true</favorite>");
    let here = t.subrange(i, i + p.len());
    assert(here[0] == t[i] && here[1] == t[i + 1] && here[2] == t[i + 2]);
    assert(t.subrange(m, m + 25)[i - m] == t[i]);
    assert(i == m || i == m + 14);
    assert(t.subrange(m, m + 25)[i - m + 1] == t[i + 1]);
    assert(t.subrange(m, m + 25)[i - m + 2] == t[i + 2]);
}

/// Whether no tag goes on after a character.
pub open spec fn parts(c: char) -> bool {
    text::space(c) || c == '>'
}

/// Where a tag stands in a spliced text: on the left or on the right of what
/// was put in, or in it.
proof fn lemma_at_splice(b: Seq<char>, x: int, y: int, mid: Seq<char>, p: Seq<char>, i: int)
    requires
        0 <= x <= y <= b.len(),
        is_tag(p),
        0 <= i,
        (mid.len() > 0 && (mid[0] == '<' || text::space(mid[0]))) || (x > 0 && parts(b[x - 1])),
    ensures
        ({
            let c = gamelist::splice(b, x, y, mid);
            &&& i + p.len() <= x ==> text::at(c, p, i) == text::at(b, p, i)
            &&& i < x < i + p.len() ==> !text::at(c, p, i)
            &&& i >= x + mid.len() ==> text::at(c, p, i) == text::at(b, p, i - mid.len() + (y - x))
        }),
{
    let c = gamelist::splice(b, x, y, mid);
    if i + p.len() <= x {
        assert(c.take(x) =~= b.take(x));
        lemma_at_before(b, c, p, i, x);
    } else if i < x {
        if text::at(c, p, i) {
            let here = c.subrange(i, i + p.len());
            if x > 0 && parts(b[x - 1]) {
                assert(here[x - 1 - i] == b[x - 1]);
                assert(!text::space(p[x - 1 - i]) && p[x - 1 - i] != '>');
            } else {
                assert(here[x - i] == mid[0]);
                assert(!text::space(p[x - i]));
            }
        }
    } else if i >= x + mid.len() {
        let l = b.take(x) + mid;
        let r = b.skip(y);
        let k = i - l.len();
        assert(c =~= l + r);
        lemma_at_after(l, r, p, k);
        lemma_at_after(b.take(y), r, p, k);
        assert(b.take(y) + r =~= b);
    }
}

/// Whether none of a block's own tags stands between two places of a text.
spec fn untagged(c: Seq<char>, x: int, y: int) -> bool {
    forall|i: int|
        x <= i < y ==> {
            &&& !#[trigger] text::at(c, "<path>"@, i)
            &&& !text::at(c, "</path>"@, i)
            &&& !text::at(c, "</game>"@, i)
        }
}

/// An edit that stays clear of a block's path, and puts none of a block's own
/// tags in, leaves a block about the same ROM.
proof fn lemma_edited(b: Seq<char>, x: int, y: int, mid: Seq<char>)
    requires
        is_block(b),
        gamelist::element(b, "<path>"@, "</path>"@) matches Some((p, q)) && (q <= x || y <= p),
        6 <= x <= y <= b.len() - 7,
        (mid.len() > 0 && (mid[0] == '<' || text::space(mid[0]))) || parts(b[x - 1]),
        untagged(gamelist::splice(b, x, y, mid), x, x + mid.len()),
    ensures
        is_block(gamelist::splice(b, x, y, mid)),
        gamelist::file_in(gamelist::splice(b, x, y, mid)) == gamelist::file_in(b),
        gamelist::file_in(b) is Some,
        ({
            let (p, q) = gamelist::element(b, "<path>"@, "</path>"@).unwrap();
            let shift = if q <= x {
                0
            } else {
                mid.len() - (y - x)
            };
            gamelist::element(gamelist::splice(b, x, y, mid), "<path>"@, "</path>"@) == Some(
                (p + shift, q + shift),
            )
        }),
{
    lemma_tags();
    let c = gamelist::splice(b, x, y, mid);
    let d = mid.len() - (y - x);
    let (p, q) = gamelist::element(b, "<path>"@, "</path>"@).unwrap();
    text::lemma_find_from(b, "<path>"@, 0);
    text::lemma_find_from(b, "</path>"@, p + 6);
    text::lemma_find_from(b, "</game>"@, 0);
    // It still opens and ends as a block.
    reveal_strlit("<game");
    assert(c.take(6) =~= b.take(6));
    lemma_at_before(b, c, "<game"@, 0, 6);
    assert(b.take(6)[5] == b[5] && c.take(6)[5] == c[5]);
    assert forall|i: int| 0 <= i < c.len() - 7 implies !text::at(c, "</game>"@, i) by {
        lemma_at_splice(b, x, y, mid, "</game>"@, i);
        if x <= i < x + mid.len() {
            assert(!text::at(c, "<path>"@, i));
        } else if i >= x + mid.len() {
            assert(!text::at(b, "</game>"@, i - d));
        }
    }
    lemma_at_splice(b, x, y, mid, "</game>"@, c.len() - 7);
    text::lemma_find_is(c, "</game>"@, 0, c.len() - 7);
    // And its path is where it was, or moved along.
    let shift = if q <= x {
        0
    } else {
        d
    };
    assert forall|i: int| 0 <= i < p + shift implies !text::at(c, "<path>"@, i) by {
        lemma_at_splice(b, x, y, mid, "<path>"@, i);
        if i >= x + mid.len() {
            assert(!text::at(b, "<path>"@, i - d));
        }
    }
    lemma_at_splice(b, x, y, mid, "<path>"@, p + shift);
    text::lemma_find_is(c, "<path>"@, 0, p + shift);
    assert forall|i: int| p + 6 + shift <= i < q - 7 + shift implies !text::at(c, "</path>"@, i) by {
        lemma_at_splice(b, x, y, mid, "</path>"@, i);
        if i >= x + mid.len() {
            assert(!text::at(b, "</path>"@, i - d));
        }
    }
    lemma_at_splice(b, x, y, mid, "</path>"@, q - 7 + shift);
    text::lemma_find_is(c, "</path>"@, p + 6 + shift, q - 7 + shift);
    assert(c.subrange(p + 6 + shift, q - 7 + shift) =~= b.subrange(p + 6, q - 7)) by {
        assert forall|i: int| p + 6 <= i < q - 7 implies c[i + shift] == b[i] by {
            if q <= x {
                assert(c[i] == b.take(x)[i]);
            } else {
                assert(c[i + d] == b.skip(y)[i - y]);
            }
        }
    }
}

/// A block in which the element stands, and none before it, is a favourite's.
proof fn lemma_marked(c: Seq<char>, m: int)
    requires
        0 <= m,
        m + 25 <= c.len(),
        c.subrange(m, m + 25) == mark(),
        forall|i: int| 0 <= i < m ==> !text::at(c, "<favorite>"@, i),
    ensures
        gamelist::starred_in(c),
{
    lemma_tags();
    assert(c.subrange(m, m + 10) =~= mark().subrange(0, 10));
    text::lemma_find_is(c, "<favorite>"@, 0, m);
    assert(c.subrange(m + 14, m + 25) =~= mark().subrange(14, 25));
    assert forall|i: int| m + 10 <= i < m + 14 implies !text::at(c, "</favorite>"@, i) by {
        if text::at(c, "</favorite>"@, i) {
            lemma_in_mark(c, m, i, "</favorite>"@);
        }
    }
    text::lemma_find_is(c, "</favorite>"@, m + 10, m + 14);
    let v = c.subrange(m + 10, m + 14);
    assert(v =~= mark().subrange(10, 14));
    reveal_strlit("true");
    xml::lemma_unescaped_plain(v);
    assert(v.take(0) =~= Seq::<char>::empty());
    text::lemma_trim_start_is(v, 0);
    assert(v.skip(0) =~= v);
    assert(v.skip(4) =~= Seq::<char>::empty());
    text::lemma_trim_end_is(v, 4);
    assert(v.take(4) =~= v);
    assert(text::lower_text(v) =~= v);
}

// ---------------------------------------------------------------------------
// The law
// ---------------------------------------------------------------------------

/// Whether the element of a block from `x` to `y` stands on a line of its own.
pub open spec fn on_own_line(b: Seq<char>, x: int, y: int) -> bool {
    let i = gamelist::line_start(b, x);
    &&& i > 0
    &&& text::all_space(b.subrange(i, x))
    &&& text::find_from(b, lines::feed(), y) is Some
    &&& text::all_space(b.subrange(y, gamelist::line_end(b, y)))
}

/// A block whose star can be moved without touching anything else: it has at most
/// one `<favorite>` element, which stands after white space or another tag and
/// apart from the path; and where it has none, the path does not go on into the
/// line that the block ends on.
pub open spec fn neat(b: Seq<char>) -> bool {
    let n = b.len() as int;
    match gamelist::element(b, "<path>"@, "</path>"@) {
        None => false,
        Some((p, q)) => match gamelist::element(b, "<favorite>"@, "</favorite>"@) {
            None => {
                let i = gamelist::line_start(b, n - 7);
                &&& text::find(b, "<favorite>"@) is None
                &&& i == 0 || q <= i || i <= p
            },
            Some((x, y)) => {
                &&& text::find_from(b, "<favorite>"@, x + 1) is None
                &&& q <= x || y <= p
                &&& x > 0 && parts(b[x - 1])
            },
        },
    }
}

/// Where a new element goes in a block.
spec fn insert_in(b: Seq<char>) -> int {
    let i = gamelist::line_start(b, b.len() - 7);
    if i == 0 {
        b.len() - 7
    } else {
        i
    }
}

/// The block that a neat block becomes.
spec fn restarred(b: Seq<char>, on: bool) -> Seq<char> {
    match gamelist::element(b, "<favorite>"@, "</favorite>"@) {
        Some((x, y)) => if on {
            gamelist::splice(b, x, y, mark())
        } else if on_own_line(b, x, y) {
            gamelist::splice(
                b,
                gamelist::line_start(b, x),
                gamelist::line_end(b, y),
                Seq::empty(),
            )
        } else {
            gamelist::splice(b, x, y, Seq::empty())
        },
        None => {
            let i = insert_in(b);
            gamelist::splice(b, i, i, gamelist::indent_of(b) + mark() + lines::feed())
        },
    }
}

/// The indentation is white space on one line, and there is some.
proof fn lemma_indent(b: Seq<char>)
    ensures
        gamelist::indent_of(b).len() > 0,
        text::all_space(gamelist::indent_of(b)),
        forall|i: int| 0 <= i < gamelist::indent_of(b).len() ==> gamelist::indent_of(b)[i] != '\n',
{
    reveal_strlit("\t\t");
    match text::find(b, "<path>"@) {
        Some(i) => {
            text::lemma_find_from(b, "<path>"@, 0);
            text::lemma_rfind(b, '\n', i);
        },
        None => {},
    }
}

/// A block that is given the element stays a block about the same ROM, its path
/// where it was or moved along, and is a favourite's.
proof fn lemma_put_in(b: Seq<char>)
    requires
        is_block(b),
        neat(b),
        gamelist::element(b, "<favorite>"@, "</favorite>"@) is None,
    ensures
        ({
            let c = restarred(b, true);
            let (p, q) = gamelist::element(b, "<path>"@, "</path>"@).unwrap();
            let more = gamelist::indent_of(b).len() + 26;
            &&& is_block(c)
            &&& gamelist::file_in(c) == gamelist::file_in(b)
            &&& gamelist::file_in(b) is Some
            &&& gamelist::starred_in(c)
            &&& gamelist::element(c, "<path>"@, "</path>"@) == Some(
                if q <= insert_in(b) {
                    (p, q)
                } else {
                    (p + more, q + more)
                },
            )
        }),
{
    lemma_tags();
    let n = b.len() as int;
    let c = restarred(b, true);
    let (p, q) = gamelist::element(b, "<path>"@, "</path>"@).unwrap();
    text::lemma_find_from(b, "<path>"@, 0);
    text::lemma_find_from(b, "</path>"@, p + 6);
    text::lemma_find_from(b, "</game>"@, 0);
    text::lemma_find_from(b, "<favorite>"@, 0);
    reveal_strlit("<game");
    reveal_strlit("</game>");
    assert(text::at(b, "<game"@, 0));
    assert(text::at(b, "</game>"@, n - 7));
    lemma_path_inside(b, p, q);
    let i = insert_in(b);
    let ind = gamelist::indent_of(b);
    let mid = ind + mark() + lines::feed();
    let m = i + ind.len();
    lemma_indent(b);
    text::lemma_rfind(b, '\n', n - 7);
    assert(i >= 6) by {
        if i <= 5 {
            if i == n - 7 {
                assert(b.subrange(n - 7, n)[1] == b[n - 6]);
                assert(b.subrange(0, 5)[i] == b[i] && b.subrange(0, 5)[1] == b[1]);
            } else {
                assert(text::space(b[i - 1]));
                assert(b.subrange(0, 5)[i - 1] == b[i - 1]);
            }
        }
    }
    assert(q <= i || i <= p);
    assert(c.subrange(m, m + 25) =~= mark());
    assert forall|k: int, t: Seq<char>|
        i <= k < i + mid.len() && is_tag(t) && #[trigger] text::at(c, t, k) implies m <= k < m
        + 25 by {
        assert(c.subrange(k, k + t.len())[0] == c[k]);
        assert(c[k] == mid[k - i]);
        if k < m {
            assert(mid[k - i] == ind[k - i]);
        } else if k >= m + 25 {
            assert(mid[k - i] == '\n');
        }
    }
    assert forall|k: int| i <= k < i + mid.len() implies {
        &&& !#[trigger] text::at(c, "<path>"@, k)
        &&& !text::at(c, "</path>"@, k)
        &&& !text::at(c, "</game>"@, k)
    } by {
        if text::at(c, "<path>"@, k) {
            lemma_in_mark(c, m, k, "<path>"@);
        }
        if text::at(c, "</path>"@, k) {
            lemma_in_mark(c, m, k, "</path>"@);
        }
        if text::at(c, "</game>"@, k) {
            lemma_in_mark(c, m, k, "</game>"@);
        }
    }
    assert(mid[0] == ind[0]);
    assert(untagged(c, i, i + mid.len()));
    lemma_edited(b, i, i, mid);
    assert forall|k: int| 0 <= k < m implies !text::at(c, "<favorite>"@, k) by {
        lemma_at_splice(b, i, i, mid, "<favorite>"@, k);
    }
    lemma_marked(c, m);
}

/// The path of a block stands before the tag that the block ends with.
proof fn lemma_path_inside(b: Seq<char>, p: int, q: int)
    requires
        is_block(b),
        gamelist::element(b, "<path>"@, "</path>"@) == Some((p, q)),
    ensures
        q <= b.len() - 7,
{
    reveal_strlit("<path>");
    reveal_strlit("</path>");
    reveal_strlit("</game>");
    let n = b.len() as int;
    text::lemma_find_from(b, "</game>"@, 0);
    text::lemma_find_from(b, "<path>"@, 0);
    text::lemma_find_from(b, "</path>"@, p + 6);
    assert(text::at(b, "</game>"@, n - 7));
    let closing = b.subrange(n - 7, n);
    if q > n - 7 {
        let s = b.subrange(q - 7, q);
        assert(text::at(b, "</path>"@, q - 7));
        assert(s[0] == '<' && s[2] == 'p');
        if q - 7 <= n - 7 {
            assert(s[n - 7 - (q - 7)] == closing[0]);
            assert(b[n - 5] == closing[2]);
            assert(b[q - 5] == s[2]);
        } else {
            assert(closing[q - 7 - (n - 7)] == s[0]);
        }
    }
}

/// A neat block stays a block about the same ROM, and says what it was made to
/// say.
proof fn lemma_restarred(b: Seq<char>, on: bool)
    requires
        is_block(b),
        neat(b),
        gamelist::starred_in(b) != on,
    ensures
        is_block(restarred(b, on)),
        gamelist::file_in(restarred(b, on)) == gamelist::file_in(b),
        gamelist::file_in(b) is Some,
        gamelist::starred_in(restarred(b, on)) == on,
{
    lemma_tags();
    let n = b.len() as int;
    let c = restarred(b, on);
    let (p, q) = gamelist::element(b, "<path>"@, "</path>"@).unwrap();
    text::lemma_find_from(b, "<path>"@, 0);
    text::lemma_find_from(b, "</path>"@, p + 6);
    text::lemma_find_from(b, "</game>"@, 0);
    text::lemma_find_from(b, "<favorite>"@, 0);
    reveal_strlit("<game");
    reveal_strlit("</game>");
    assert(text::at(b, "<game"@, 0));
    assert(text::at(b, "</game>"@, n - 7));
    let closing = b.subrange(n - 7, n);
    lemma_path_inside(b, p, q);
    match gamelist::element(b, "<favorite>"@, "</favorite>"@) {
        Some((x, y)) => {
            text::lemma_find_from(b, "</favorite>"@, x + 10);
            text::lemma_find_from(b, "<favorite>"@, x + 1);
            let opening = b.subrange(0, 5);
            let s = b.subrange(x, x + 10);
            assert(text::at(b, "<favorite>"@, x));
            assert(x >= 6) by {
                reveal_strlit("<favorite>");
                assert(s[0] == b[x] && s[1] == b[x + 1]);
                if x < 5 {
                    assert(opening[x] == b[x]);
                    assert(opening[1] == b[1]);
                }
            }
            assert(y <= n - 7) by {
                reveal_strlit("</favorite>");
                if y > n - 7 {
                    let e = b.subrange(y - 11, y);
                    assert(text::at(b, "</favorite>"@, y - 11));
                    assert(e[0] == '<' && e[2] == 'f');
                    if y - 11 <= n - 7 {
                        assert(e[n - 7 - (y - 11)] == closing[0]);
                        assert(b[n - 5] == closing[2]);
                        assert(b[y - 9] == e[2]);
                    } else {
                        assert(closing[y - 11 - (n - 7)] == e[0]);
                    }
                }
            }
            if on {
                assert(c == gamelist::splice(b, x, y, mark()));
                assert(c.subrange(x, x + 25) =~= mark());
                assert forall|i: int| x <= i < x + mark().len() implies {
                    &&& !#[trigger] text::at(c, "<path>"@, i)
                    &&& !text::at(c, "</path>"@, i)
                    &&& !text::at(c, "</game>"@, i)
                } by {
                    if text::at(c, "<path>"@, i) {
                        lemma_in_mark(c, x, i, "<path>"@);
                    }
                    if text::at(c, "</path>"@, i) {
                        lemma_in_mark(c, x, i, "</path>"@);
                    }
                    if text::at(c, "</game>"@, i) {
                        lemma_in_mark(c, x, i, "</game>"@);
                    }
                }
                assert(untagged(c, x, x + 25));
                lemma_edited(b, x, y, mark());
                assert forall|i: int| 0 <= i < x implies !text::at(c, "<favorite>"@, i) by {
                    lemma_at_splice(b, x, y, mark(), "<favorite>"@, i);
                }
                lemma_marked(c, x);
            } else if on_own_line(b, x, y) {
                let i = gamelist::line_start(b, x);
                let j = gamelist::line_end(b, y);
                text::lemma_rfind(b, '\n', x);
                lines::lemma_feed_from(b, y);
                assert(text::space(b[i - 1]));
                assert(i >= 6) by {
                    if i <= 5 {
                        assert(opening[i - 1] == b[i - 1]);
                    }
                }
                assert(j <= n - 7) by {
                    if j > n - 7 {
                        assert(b.subrange(y, j)[n - 7 - y] == b[n - 7]);
                        assert(closing[0] == b[n - 7]);
                    }
                }
                assert(q <= i || j <= p) by {
                    if q <= x {
                        if q > i {
                            assert(text::at(b, "</path>"@, q - 7));
                            assert(b.subrange(q - 7, q)[6] == b[q - 1]);
                            assert(!text::space("</path>"@[6]));
                            assert(b.subrange(i, x)[q - 1 - i] == b[q - 1]);
                        }
                    } else {
                        if j > p {
                            assert(text::at(b, "<path>"@, p));
                            assert(b.subrange(p, p + 6)[0] == b[p]);
                            assert(!text::space("<path>"@[0]));
                            assert(b.subrange(y, j)[p - y] == b[p]);
                        }
                    }
                }
                lemma_edited(b, i, j, Seq::empty());
                assert forall|k: int| 0 <= k implies !text::at(c, "<favorite>"@, k) by {
                    lemma_at_splice(b, i, j, Seq::empty(), "<favorite>"@, k);
                    if k >= i {
                        assert(!text::at(b, "<favorite>"@, k + (j - i)));
                    }
                }
                text::lemma_find_none(c, "<favorite>"@, 0);
            } else {
                lemma_edited(b, x, y, Seq::empty());
                assert forall|k: int| 0 <= k implies !text::at(c, "<favorite>"@, k) by {
                    lemma_at_splice(b, x, y, Seq::empty(), "<favorite>"@, k);
                    if k >= x {
                        assert(!text::at(b, "<favorite>"@, k + (y - x)));
                    }
                }
                text::lemma_find_none(c, "<favorite>"@, 0);
            }
        },
        None => {
            lemma_put_in(b);
        },
    }
}

/// Rewriting the element in a list is rewriting it in its block.
proof fn lemma_with_star_on(t: Seq<char>, s: int, e: int, x: int, y: int)
    requires
        0 <= s <= e <= t.len(),
        0 <= x <= y <= e - s,
    ensures
        gamelist::splice(t, s + x, s + y, mark()) == gamelist::splice(
            t,
            s,
            e,
            gamelist::splice(t.subrange(s, e), x, y, mark()),
        ),
{
    assert(gamelist::splice(t, s + x, s + y, mark()) =~= gamelist::splice(
        t,
        s,
        e,
        gamelist::splice(t.subrange(s, e), x, y, mark()),
    ));
}

/// Taking the element, and its line, out of a list is taking them out of its
/// block.
proof fn lemma_with_star_off(t: Seq<char>, s: int, e: int, x: int, y: int)
    requires
        0 <= s <= e <= t.len(),
        0 <= x <= y <= e - s,
        on_own_line(t.subrange(s, e), x, y),
    ensures
        ({
            let b = t.subrange(s, e);
            let cut = gamelist::splice(t, s + x, s + y, Seq::empty());
            gamelist::without_blank_line(cut, s + x) == gamelist::splice(
                t,
                s,
                e,
                gamelist::splice(
                    b,
                    gamelist::line_start(b, x),
                    gamelist::line_end(b, y),
                    Seq::empty(),
                ),
            )
        }),
{
    let b = t.subrange(s, e);
    let n = b.len() as int;
    let i = gamelist::line_start(b, x);
    let j = gamelist::line_end(b, y);
    let cut = gamelist::splice(t, s + x, s + y, Seq::empty());
    text::lemma_rfind(b, '\n', x);
    text::lemma_rfind(cut, '\n', s + x);
    lines::lemma_feed_from(b, y);
    lines::lemma_feed_from(cut, s + x);
    assert forall|k: int| 0 <= k < x implies #[trigger] cut[s + k] == b[k] by {
        assert(t.take(s + x)[s + k] == t[s + k]);
    }
    assert forall|k: int| y <= k < n implies #[trigger] b[k] == cut[s + k - (y - x)] by {
        assert(t.skip(s + y)[k - y] == t[s + k]);
    }
    assert(gamelist::line_start(cut, s + x) == s + i) by {
        assert(cut[s + (i - 1)] == b[i - 1]);
        let at = text::rfind_before(cut, '\n', s + x).unwrap();
        if at > s + i - 1 {
            assert(cut[s + (at - s)] == b[at - s]);
        }
    }
    let k = s + j - (y - x);
    assert(gamelist::line_end(cut, s + x) == k) by {
        assert(b[j - 1] == cut[k - 1]);
        let at = text::find_from(cut, lines::feed(), s + x).unwrap();
        if at < k - 1 {
            assert(b[at - s + (y - x)] == cut[at]);
        }
    }
    let line = cut.subrange(s + i, k);
    assert forall|h: int| 0 <= h < line.len() implies text::space(#[trigger] line[h]) by {
        if h < x - i {
            assert(cut[s + (i + h)] == b[i + h]);
            assert(text::space(b.subrange(i, x)[h]));
        } else {
            let m = h - (x - i);
            assert(b[y + m] == cut[s + x + m]);
            assert(text::space(b.subrange(y, j)[m]));
        }
    }
    let c = gamelist::splice(b, i, j, Seq::empty());
    assert(cut.take(s + i) =~= t.take(s + i));
    assert(cut.skip(k) =~= t.skip(s + j));
    assert(gamelist::splice(t, s, e, c) =~= t.take(s + i) + t.skip(s + j));
}

/// Taking an element out of a list that is not alone on its line takes nothing
/// else.
proof fn lemma_with_star_cut(t: Seq<char>, s: int, e: int, x: int, y: int)
    requires
        0 <= s,
        e <= t.len(),
        0 < x <= y <= e - s - 7,
        t[s] == '<',
        t[e - 7] == '<',
        !on_own_line(t.subrange(s, e), x, y),
    ensures
        ({
            let cut = gamelist::splice(t, s + x, s + y, Seq::empty());
            gamelist::without_blank_line(cut, s + x) == gamelist::splice(
                t,
                s,
                e,
                gamelist::splice(t.subrange(s, e), x, y, Seq::empty()),
            )
        }),
{
    let b = t.subrange(s, e);
    let n = b.len() as int;
    let cut = gamelist::splice(t, s + x, s + y, Seq::empty());
    let i = gamelist::line_start(cut, s + x);
    let j = gamelist::line_end(cut, s + x);
    text::lemma_rfind(cut, '\n', s + x);
    lines::lemma_feed_from(cut, s + x);
    text::lemma_rfind(b, '\n', x);
    lines::lemma_feed_from(b, y);
    assert forall|k: int| 0 <= k < x implies #[trigger] cut[s + k] == b[k] by {
        assert(t.take(s + x)[s + k] == t[s + k]);
    }
    assert forall|k: int| y <= k < n implies #[trigger] b[k] == cut[s + k - (y - x)] by {
        assert(t.skip(s + y)[k - y] == t[s + k]);
    }
    let line = cut.subrange(i, j);
    if text::all_space(line) {
        // A blank line is one inside the block.
        assert(i > s) by {
            if i <= s {
                assert(cut[s + 0] == b[0]);
                assert(line[s - i] == cut[s]);
            }
        }
        let end = s + (n - 7) - (y - x);
        assert(j <= end) by {
            if j > end {
                assert(b[n - 7] == cut[end]);
                assert(line[end - i] == cut[end]);
            }
        }
        assert(cut[s + (i - 1 - s)] == b[i - 1 - s]);
        assert(gamelist::line_start(b, x) == i - s) by {
            let at = text::rfind_before(b, '\n', x).unwrap();
            if at > i - 1 - s {
                assert(cut[s + at] == b[at]);
            }
        }
        let h = j - 1 - s + (y - x);
        assert(b[h] == cut[j - 1]);
        assert(text::find_from(b, lines::feed(), y) == Some(h)) by {
            let at = text::find_from(b, lines::feed(), y).unwrap();
            if at < h {
                assert(b[at] == cut[s + at - (y - x)]);
            }
        }
        let before = b.subrange(i - s, x);
        assert forall|k: int| 0 <= k < before.len() implies text::space(#[trigger] before[k]) by {
            assert(cut[s + (i - s + k)] == b[i - s + k]);
            assert(text::space(line[k]));
        }
        let after = b.subrange(y, h + 1);
        assert forall|k: int| 0 <= k < after.len() implies text::space(#[trigger] after[k]) by {
            assert(b[y + k] == cut[s + x + k]);
            assert(text::space(line[s + x + k - i]));
        }
        assert(on_own_line(b, x, y));
    }
    assert(cut =~= gamelist::splice(t, s, e, gamelist::splice(b, x, y, Seq::empty())));
}

/// Putting a new element into a list is putting it into its block.
proof fn lemma_with_star_new(t: Seq<char>, s: int, e: int)
    requires
        0 <= s,
        s + 7 <= e <= t.len(),
    ensures
        ({
            let b = t.subrange(s, e);
            let i = insert_in(b);
            let at = gamelist::insert_at(t, s, e);
            gamelist::splice(t, at, at, gamelist::indent_of(b) + "<favorite>true</favorite>\n"@)
                == gamelist::splice(
                t,
                s,
                e,
                gamelist::splice(b, i, i, gamelist::indent_of(b) + mark() + lines::feed()),
            )
        }),
{
    let b = t.subrange(s, e);
    let n = b.len() as int;
    let i = insert_in(b);
    let line = gamelist::line_start(b, n - 7);
    text::lemma_rfind(b, '\n', n - 7);
    text::lemma_rfind(t, '\n', e - 7);
    assert(gamelist::insert_at(t, s, e) == s + i) by {
        let from = gamelist::line_start(t, e - 7);
        if from > s {
            assert(t[from - 1] == b[from - 1 - s]);
        }
        if line > 0 {
            assert(t[s + line - 1] == b[line - 1]);
            if from > s + line {
                assert(b[from - 1 - s] == '\n');
            }
        }
    }
    reveal_strlit("<favorite>true</favorite>\n");
    reveal_strlit("<favorite>true</favorite>");
    assert("<favorite>true</favorite>\n"@ =~= mark() + lines::feed());
    let mid = gamelist::indent_of(b) + "<favorite>true</favorite>\n"@;
    assert(mid =~= gamelist::indent_of(b) + mark() + lines::feed());
    assert(gamelist::splice(t, s + i, s + i, mid) =~= gamelist::splice(
        t,
        s,
        e,
        gamelist::splice(b, i, i, mid),
    ));
}

/// An element of a block stands between the tags the block opens and ends with.
proof fn lemma_element_inside(b: Seq<char>, x: int, y: int)
    requires
        is_block(b),
        gamelist::element(b, "<favorite>"@, "</favorite>"@) == Some((x, y)),
    ensures
        0 < x <= y <= b.len() - 7,
        b[0] == '<',
        b[b.len() - 7] == '<',
{
    reveal_strlit("<game");
    reveal_strlit("</game>");
    reveal_strlit("<favorite>");
    reveal_strlit("</favorite>");
    let n = b.len() as int;
    text::lemma_find_from(b, "</game>"@, 0);
    text::lemma_find_from(b, "<favorite>"@, 0);
    text::lemma_find_from(b, "</favorite>"@, x + 10);
    assert(text::at(b, "<game"@, 0));
    let opening = b.subrange(0, 5);
    let closing = b.subrange(n - 7, n);
    assert(text::at(b, "</game>"@, n - 7));
    assert(opening[0] == b[0] && opening[1] == b[1] && closing[0] == b[n - 7]);
    let s = b.subrange(x, x + 10);
    assert(text::at(b, "<favorite>"@, x));
    assert(s[0] == b[x] && s[1] == b[x + 1]);
    let e = b.subrange(y - 11, y);
    assert(text::at(b, "</favorite>"@, y - 11));
    if y > n - 7 {
        assert(e[0] == '<' && e[2] == 'f');
        if y - 11 <= n - 7 {
            assert(e[n - 7 - (y - 11)] == closing[0]);
            assert(b[n - 5] == closing[2]);
            assert(b[y - 9] == e[2]);
        } else {
            assert(closing[y - 11 - (n - 7)] == e[0]);
        }
    }
}

/// Rewriting a star in a list is exchanging the game's block.
proof fn lemma_with_star(t: Seq<char>, s: int, e: int, on: bool)
    requires
        0 <= s,
        s + 7 <= e <= t.len(),
        is_block(t.subrange(s, e)),
        neat(t.subrange(s, e)),
        gamelist::starred_in(t.subrange(s, e)) != on,
    ensures
        gamelist::game_of(t, s, e) matches Some(g) && gamelist::with_star(t, g, on)
            == gamelist::splice(t, s, e, restarred(t.subrange(s, e), on)),
{
    let b = t.subrange(s, e);
    lemma_restarred(b, on);
    lemma_tags();
    match gamelist::element(b, "<favorite>"@, "</favorite>"@) {
        Some((x, y)) => {
            text::lemma_find_from(b, "<favorite>"@, 0);
            text::lemma_find_from(b, "</favorite>"@, x + 10);
            if on {
                lemma_with_star_on(t, s, e, x, y);
            } else if on_own_line(b, x, y) {
                lemma_with_star_off(t, s, e, x, y);
            } else {
                lemma_element_inside(b, x, y);
                lemma_with_star_cut(t, s, e, x, y);
            }
        },
        None => {
            lemma_with_star_new(t, s, e);
        },
    }
}

proof fn lemma_first_of(gs: Seq<Game>, file: Seq<char>)
    ensures
        gamelist::first_of(gs, file) matches Some(k) ==> 0 <= k < gs.len() && gs[k].file == file,
    decreases gs.len(),
{
    if gs.len() > 0 && gs[0].file != file {
        lemma_first_of(gs.skip(1), file);
    }
}

/// Every game of a list stands in a block, and is what that block says.
proof fn lemma_games_are_blocks(t: Seq<char>, from: int)
    requires
        0 <= from,
    ensures
        forall|k: int|
            0 <= k < gamelist::games_from(t, from).len() ==> {
                let g = #[trigger] gamelist::games_from(t, from)[k];
                &&& from <= g.start
                &&& g.start + 7 <= g.end <= t.len()
                &&& is_block(t.subrange(g.start, g.end))
                &&& gamelist::game_of(t, g.start, g.end) == Some(g)
            },
    decreases t.len() - from,
{
    gamelist::lemma_block_from(t, from);
    lemma_is_block(t, from);
    match gamelist::block_from(t, from) {
        Some((s, e)) => {
            lemma_games_are_blocks(t, e);
        },
        None => {},
    }
}

/// Starring or unstarring a game that a list has moves that star and nothing
/// else: every game, in its order, reads as it did.
pub proof fn law_star_moves_one_star(t: Seq<char>, file: Seq<char>, on: bool)
    requires
        gamelist::first_of(gamelist::games(t), file) matches Some(k) && gamelist::games(t)[k].starred
            != on && neat(t.subrange(gamelist::games(t)[k].start, gamelist::games(t)[k].end)),
    ensures
        gamelist::star(t, file, on) is Some,
        reads(gamelist::star(t, file, on).unwrap()) == reads(t).update(
            gamelist::first_of(gamelist::games(t), file).unwrap(),
            Mark { file, starred: on },
        ),
{
    let gs = gamelist::games(t);
    lemma_first_of(gs, file);
    lemma_games_are_blocks(t, 0);
    let k = gamelist::first_of(gs, file).unwrap();
    let g = gs[k];
    let b = t.subrange(g.start, g.end);
    lemma_with_star(t, g.start, g.end, on);
    lemma_restarred(b, on);
    lemma_swap(t, 0, k, restarred(b, on));
}

/// A list that already says it is left as it is.
pub proof fn law_star_again_moves_nothing(t: Seq<char>, file: Seq<char>, on: bool)
    requires
        gamelist::first_of(gamelist::games(t), file) matches Some(k) && gamelist::games(t)[k].starred
            == on,
    ensures
        gamelist::star(t, file, on) is None,
{
}

// ---------------------------------------------------------------------------
// A game that was not there
// ---------------------------------------------------------------------------

/// Where the last block of a list ends.
pub open spec fn blocks_end(t: Seq<char>, from: int) -> int
    decreases t.len() - from,
{
    if from < 0 {
        from
    } else {
        proof {
            gamelist::lemma_block_from(t, from);
        }
        match gamelist::block_from(t, from) {
            None => from,
            Some((s, e)) => blocks_end(t, e),
        }
    }
}

/// A list that ends after its games: nothing opens after the last block, and
/// the tag that ends the list stands after it.
pub open spec fn ends_after_games(t: Seq<char>) -> bool {
    match text::rfind(t, "</gameList>"@) {
        None => false,
        Some(i) => {
            let z = blocks_end(t, 0);
            &&& z <= i
            &&& gamelist::game_from(t, z) is None
            &&& !text::at(t, "<game"@, i - 5)
        },
    }
}

/// The block of a new game, without the indentation and the line feed around it.
spec fn bare_block(file: Seq<char>) -> Seq<char> {
    "<game>\n\t\t<path>./"@ + xml::escaped(file) + "</path>\n\t\t<name>"@ + xml::escaped(
        gamelist::title_of(file),
    ) + "</name>\n\t\t<favorite>true</favorite>\n\t</game>"@
}

proof fn lemma_new_block(file: Seq<char>)
    ensures
        gamelist::new_block(file) == seq!['\t'] + bare_block(file) + lines::feed(),
{
    reveal_strlit("\t<game>\n\t\t<path>./");
    reveal_strlit("<game>\n\t\t<path>./");
    reveal_strlit("</name>\n\t\t<favorite>true</favorite>\n\t</game>\n");
    reveal_strlit("</name>\n\t\t<favorite>true</favorite>\n\t</game>");
    assert("\t<game>\n\t\t<path>./"@ =~= seq!['\t'] + "<game>\n\t\t<path>./"@);
    assert("</name>\n\t\t<favorite>true</favorite>\n\t</game>\n"@
        =~= "</name>\n\t\t<favorite>true</favorite>\n\t</game>"@ + lines::feed());
    assert(gamelist::new_block(file) =~= seq!['\t'] + bare_block(file) + lines::feed());
}

/// Where an angle bracket opens in the block of a new game, and what follows it.
proof fn lemma_bare_block_tags(file: Seq<char>, i: int)
    requires
        0 <= i < bare_block(file).len(),
        bare_block(file)[i] == '<',
    ensures
        ({
            let b = bare_block(file);
            let a = 17 + xml::escaped(file).len();
            let c = a + 16 + xml::escaped(gamelist::title_of(file)).len();
            &&& b.len() == c + 44
            &&& i + 2 < b.len()
            &&& {
                ||| i == 0 && b[i + 1] == 'g'
                ||| i == 9 && b[i + 1] == 'p'
                ||| i == a && b[i + 1] == '/' && b[i + 2] == 'p'
                ||| i == a + 10 && b[i + 1] == 'n'
                ||| i == c && b[i + 1] == '/' && b[i + 2] == 'n'
                ||| i == c + 10 && b[i + 1] == 'f'
                ||| i == c + 24 && b[i + 1] == '/' && b[i + 2] == 'f'
                ||| i == c + 37 && b[i + 1] == '/' && b[i + 2] == 'g'
            }
        }),
{
    reveal_strlit("<game>\n\t\t<path>./");
    reveal_strlit("</path>\n\t\t<name>");
    reveal_strlit("</name>\n\t\t<favorite>true</favorite>\n\t</game>");
    let p1 = "<game>\n\t\t<path>./"@;
    let p2 = xml::escaped(file);
    let p3 = "</path>\n\t\t<name>"@;
    let p4 = xml::escaped(gamelist::title_of(file));
    let p5 = "</name>\n\t\t<favorite>true</favorite>\n\t</game>"@;
    xml::lemma_escaped_holds_no_tag(file);
    xml::lemma_escaped_holds_no_tag(gamelist::title_of(file));
    let b = bare_block(file);
    let a = 17 + p2.len();
    let d = a + 16;
    let c = d + p4.len();
    if i < 17 {
        assert(b[i] == p1[i] && (i + 2 < 17 ==> b[i + 1] == p1[i + 1] && b[i + 2] == p1[i + 2]));
    } else if i < a {
        assert(b[i] == p2[i - 17]);
    } else if i < d {
        assert(b[i] == p3[i - a] && (i + 2 < d ==> b[i + 1] == p3[i - a + 1] && b[i + 2] == p3[i - a
            + 2]));
    } else if i < c {
        assert(b[i] == p4[i - d]);
    } else {
        assert(b[i] == p5[i - c] && (i + 2 < b.len() ==> b[i + 1] == p5[i - c + 1] && b[i + 2] == p5[i
            - c + 2]));
    }
}

/// The block of a new game is a block about its ROM, and a favourite's.
proof fn lemma_bare_block(file: Seq<char>)
    requires
        !text::starts(file, "./"@),
    ensures
        is_block(bare_block(file)),
        gamelist::file_in(bare_block(file)) == Some(file),
        gamelist::starred_in(bare_block(file)),
        bare_block(file).len() > 7,
{
    lemma_tags();
    reveal_strlit("<path>");
    reveal_strlit("</path>");
    reveal_strlit("<favorite>");
    reveal_strlit("</favorite>");
    reveal_strlit("</game>");
    reveal_strlit("<game");
    reveal_strlit("./");
    reveal_strlit("<game>\n\t\t<path>./");
    reveal_strlit("</path>\n\t\t<name>");
    reveal_strlit("</name>\n\t\t<favorite>true</favorite>\n\t</game>");
    reveal_strlit("<favorite>true</favorite>");
    let p1 = "<game>\n\t\t<path>./"@;
    let p2 = xml::escaped(file);
    let p3 = "</path>\n\t\t<name>"@;
    let p4 = xml::escaped(gamelist::title_of(file));
    let p5 = "</name>\n\t\t<favorite>true</favorite>\n\t</game>"@;
    let b = bare_block(file);
    let a: int = 17 + p2.len() as int;
    let c: int = a + 16 + p4.len();
    assert(b.len() == c + 44);
    assert forall|i: int, p: Seq<char>|
        0 <= i && is_tag(p) && p.len() >= 3 && #[trigger] text::at(b, p, i) implies b[i] == '<' && b[i + 1]
        == p[1] && b[i + 2] == p[2] by {
        let s = b.subrange(i, i + p.len());
        assert(s[0] == b[i] && s[1] == b[i + 1] && s[2] == b[i + 2]);
    }
    // It opens at its beginning and ends at its end.
    assert(b.subrange(0, 5) =~= "<game"@);
    assert(b[5] == '>');
    assert(b.subrange(c + 37, c + 44) =~= "</game>"@);
    assert forall|i: int| 0 <= i < c + 37 implies !text::at(b, "</game>"@, i) by {
        if text::at(b, "</game>"@, i) {
            lemma_bare_block_tags(file, i);
        }
    }
    text::lemma_find_is(b, "</game>"@, 0, c + 37);
    // Its path is its ROM.
    assert(b.subrange(9, 15) =~= "<path>"@);
    assert forall|i: int| 0 <= i < 9 implies !text::at(b, "<path>"@, i) by {
        if text::at(b, "<path>"@, i) {
            lemma_bare_block_tags(file, i);
        }
    }
    text::lemma_find_is(b, "<path>"@, 0, 9);
    assert(b.subrange(a, a + 7) =~= "</path>"@);
    assert forall|i: int| 15 <= i < a implies !text::at(b, "</path>"@, i) by {
        if text::at(b, "</path>"@, i) {
            lemma_bare_block_tags(file, i);
        }
    }
    text::lemma_find_is(b, "</path>"@, 15, a);
    let whole = "./"@ + file;
    assert(b.subrange(15, a) =~= "./"@ + p2);
    lemma_dot_slash_escaped(file);
    xml::law_unescape_undoes_escape(whole);
    assert(whole.take(2) =~= "./"@);
    assert(whole.skip(2) =~= file);
    assert(gamelist::inside(b, "<path>"@, "</path>"@) == Some(whole));
    assert(text::strip_all(file, "./"@) == file);
    assert(text::strip_all(whole, "./"@) == text::strip_all(whole.skip(2), "./"@));
    // And it is a favourite.
    assert(b.subrange(c + 10, c + 35) =~= mark());
    assert forall|i: int| 0 <= i < c + 10 implies !text::at(b, "<favorite>"@, i) by {
        if text::at(b, "<favorite>"@, i) {
            lemma_bare_block_tags(file, i);
        }
    }
    lemma_marked(b, c + 10);
}

proof fn lemma_dot_slash_escaped(file: Seq<char>)
    ensures
        xml::escaped("./"@ + file) == "./"@ + xml::escaped(file),
{
    reveal_strlit("./");
    let w = "./"@ + file;
    let f = |c: char| xml::spelling(c, false);
    xml::lemma_escaped_is_spelled(w);
    xml::lemma_escaped_is_spelled(file);
    reveal_with_fuel(xml::spelled, 3);
    assert(w.skip(1).skip(1) =~= file);
    assert(w[0] == '.' && w.skip(1)[0] == '/');
    assert(xml::spelled(w, f) =~= seq!['.'] + (seq!['/'] + xml::spelled(file, f)));
    assert(seq!['.'] + (seq!['/'] + xml::spelled(file, f)) =~= "./"@ + xml::spelled(file, f));
}

/// Where nothing opens there is no game.
proof fn lemma_no_games(t: Seq<char>, from: int)
    requires
        0 <= from,
        forall|i: int| from <= i ==> !gamelist::opens(t, i),
    ensures
        gamelist::games_from(t, from) == Seq::<Game>::empty(),
{
    gamelist::lemma_game_from(t, from);
}

/// A list with a new block put in after its games reads as it did, with one
/// more game at the end.
proof fn lemma_appended(t: Seq<char>, from: int, i: int, file: Seq<char>)
    requires
        0 <= from,
        blocks_end(t, from) <= i <= t.len(),
        gamelist::game_from(t, blocks_end(t, from)) is None,
        !text::at(t, "<game"@, i - 5),
        !text::starts(file, "./"@),
    ensures
        marks(
            gamelist::games_from(gamelist::splice(t, i, i, gamelist::new_block(file)), from),
        ) == marks(gamelist::games_from(t, from)).push(Mark { file, starred: true }),
    decreases t.len() - from,
{
    reveal_strlit("<game");
    reveal_strlit("</game>");
    let u = gamelist::splice(t, i, i, gamelist::new_block(file));
    let b = bare_block(file);
    lemma_new_block(file);
    lemma_bare_block(file);
    gamelist::lemma_block_from(t, from);
    lemma_blocks_end(t, from);
    assert(u.take(i) =~= t.take(i));
    match gamelist::block_from(t, from) {
        Some((s, e)) => {
            lemma_blocks_end(t, e);
            lemma_block_before(t, u, from, i);
            assert(t.subrange(s, e) =~= u.subrange(s, e)) by {
                assert forall|k: int| s <= k < e implies t[k] == u[k] by {
                    assert(t.take(i)[k] == u.take(i)[k]);
                }
            }
            lemma_appended(t, e, i, file);
            match gamelist::game_of(t, s, e) {
                Some(g) => {
                    let h = gamelist::game_of(u, s, e).unwrap();
                    let old_rest = gamelist::games_from(t, e);
                    let new_rest = gamelist::games_from(u, e);
                    lemma_marks_cons(g, old_rest);
                    lemma_marks_cons(h, new_rest);
                    assert(marks(gamelist::games_from(u, from)) =~= marks(
                        gamelist::games_from(t, from),
                    ).push(Mark { file, starred: true }));
                },
                None => {},
            }
        },
        None => {
            gamelist::lemma_game_from(t, from);
            let pre = t.take(i).push('\t');
            let rest = lines::feed() + t.skip(i);
            assert(u =~= pre + b + rest);
            assert(u =~= pre + (b + rest));
            let s = i + 1;
            // Nothing opens before the new block.
            assert forall|k: int| from <= k < s implies !gamelist::opens(u, k) by {
                if gamelist::opens(u, k) {
                    let w = u.subrange(k, k + 5);
                    assert(w[0] == u[k] && w[1] == u[k + 1] && w[2] == u[k + 2] && w[3] == u[k + 3]
                        && w[4] == u[k + 4]);
                    if k + 6 <= i {
                        lemma_at_before(t, u, "<game"@, k, i);
                        assert(t.take(i)[k + 5] == u.take(i)[k + 5]);
                        assert(gamelist::opens(t, k));
                    } else if k == i - 5 {
                        lemma_at_before(t, u, "<game"@, k, i);
                    } else {
                        assert(u[i] == '\t');
                        assert(w[i - k] == '\t');
                    }
                }
            }
            lemma_opens_after(pre, b + rest, 0);
            assert(b.take(b.len() as int) =~= (b + rest).take(b.len() as int));
            lemma_at_before(b, b + rest, "<game"@, 0, b.len() as int);
            lemma_game_from_is(u, from, s);
            text::lemma_find_from(b, "</game>"@, 0);
            assert forall|k: int| 0 <= k < b.len() - 7 implies !text::at(b + rest, "</game>"@, k) by {
                lemma_at_before(b, b + rest, "</game>"@, k, b.len() as int);
            }
            lemma_at_before(b, b + rest, "</game>"@, b.len() - 7, b.len() as int);
            text::lemma_find_is(b + rest, "</game>"@, 0, b.len() - 7);
            lemma_find_after(pre, b + rest, "</game>"@, 0);
            let e = s + b.len();
            assert(u.subrange(s, e) =~= b);
            // And nothing opens after it.
            assert(u =~= (pre + b) + rest);
            lemma_marks_after(pre + b, rest, 0);
            assert forall|k: int| 0 <= k implies !gamelist::opens(rest, k) by {
                if gamelist::opens(rest, k) {
                    let w = rest.subrange(k, k + 5);
                    assert(w[0] == rest[k]);
                    if k > 0 {
                        assert(rest =~= lines::feed() + t.skip(i));
                        lemma_opens_after(lines::feed(), t.skip(i), k - 1);
                        lemma_opens_after(t.take(i), t.skip(i), k - 1);
                        assert(t.take(i) + t.skip(i) =~= t);
                    }
                }
            }
            lemma_no_games(rest, 0);
            let h = gamelist::game_of(u, s, e).unwrap();
            let after = gamelist::games_from(u, e);
            lemma_marks_cons(h, after);
            assert(marks(after) =~= Seq::<Mark>::empty());
            assert(marks(gamelist::games_from(u, from)) =~= marks(gamelist::games_from(t, from)).push(
                Mark { file, starred: true },
            ));
        },
    }
}

proof fn lemma_blocks_end(t: Seq<char>, from: int)
    requires
        0 <= from,
    ensures
        blocks_end(t, from) >= from,
    decreases t.len() - from,
{
    gamelist::lemma_block_from(t, from);
    match gamelist::block_from(t, from) {
        Some((s, e)) => {
            lemma_blocks_end(t, e);
        },
        None => {},
    }
}

/// Starring a game that a list does not have adds it, as a favourite, after
/// the games the list has, all of which read as they did.
pub proof fn law_star_adds_a_game(t: Seq<char>, file: Seq<char>)
    requires
        gamelist::first_of(gamelist::games(t), file) is None,
        ends_after_games(t),
        !text::starts(file, "./"@),
    ensures
        gamelist::star(t, file, true) is Some,
        reads(gamelist::star(t, file, true).unwrap()) == reads(t).push(Mark { file, starred: true }),
{
    text::lemma_rfind_from(t, "</gameList>"@, t.len() as int);
    let i = text::rfind(t, "</gameList>"@).unwrap();
    lemma_appended(t, 0, i, file);
}

/// A ROM is among the favourites where some game of it is one.
pub proof fn lemma_favorites(gs: Seq<Game>, f: Seq<char>)
    ensures
        gamelist::favorite_files(gs).contains(f) == (exists|i: int|
            0 <= i < gs.len() && #[trigger] marks(gs)[i] == (Mark { file: f, starred: true })),
    decreases gs.len(),
{
    let keep = |g: Game| g.starred;
    let file = |g: Game| g.file;
    if gs.len() == 0 {
        assert(gs.filter(keep) =~= Seq::empty()) by {
            reveal(Seq::filter);
        }
        assert(gs.filter(keep).map_values(file) =~= Seq::<Seq<char>>::empty());
    } else {
        let front = gs.drop_last();
        let g = gs.last();
        lemma_favorites(front, f);
        assert(front.push(g) =~= gs);
        front.lemma_filter_push(g, keep);
        assert forall|i: int| 0 <= i < front.len() implies #[trigger] marks(gs)[i] == marks(front)[i] by {}
        let kept = front.filter(keep).map_values(file);
        if g.starred {
            assert(gs.filter(keep).map_values(file) =~= kept.push(g.file));
            kept.lemma_push_to_set_commute(g.file);
        }
        assert(marks(gs)[gs.len() - 1] == Mark { file: g.file, starred: g.starred });
        if exists|i: int| 0 <= i < gs.len() && #[trigger] marks(gs)[i] == (Mark { file: f, starred: true }) {
            let i = choose|i: int|
                0 <= i < gs.len() && #[trigger] marks(gs)[i] == (Mark { file: f, starred: true });
            if i < front.len() {
                assert(marks(front)[i] == Mark { file: f, starred: true });
            }
        }
        if exists|i: int|
            0 <= i < front.len() && #[trigger] marks(front)[i] == (Mark { file: f, starred: true }) {
            let i = choose|i: int|
                0 <= i < front.len() && #[trigger] marks(front)[i] == (Mark { file: f, starred: true });
            assert(marks(gs)[i] == Mark { file: f, starred: true });
        }
    }
}

/// Starring a game puts its ROM among the favourites; unstarring the only game
/// of a ROM takes it out. No other ROM is touched.
pub proof fn law_favorites_after_star(t: Seq<char>, file: Seq<char>, on: bool)
    requires
        gamelist::first_of(gamelist::games(t), file) matches Some(k) && gamelist::games(t)[k].starred
            != on && neat(t.subrange(gamelist::games(t)[k].start, gamelist::games(t)[k].end)) && (on
            || forall|i: int|
            0 <= i < gamelist::games(t).len() && i != k ==> (#[trigger] gamelist::games(t)[i]).file
                != file),
    ensures
        gamelist::star(t, file, on) is Some,
        gamelist::favorite_files(gamelist::games(gamelist::star(t, file, on).unwrap())) == (if on {
            gamelist::favorite_files(gamelist::games(t)).insert(file)
        } else {
            gamelist::favorite_files(gamelist::games(t)).remove(file)
        }),
{
    law_star_moves_one_star(t, file, on);
    let before = gamelist::games(t);
    let after = gamelist::games(gamelist::star(t, file, on).unwrap());
    lemma_first_of(before, file);
    let k = gamelist::first_of(before, file).unwrap();
    let mb = marks(before);
    let ma = marks(after);
    assert(ma == mb.update(k, Mark { file, starred: on }));
    assert(after.len() == ma.len() && before.len() == mb.len());
    let want = if on {
        gamelist::favorite_files(before).insert(file)
    } else {
        gamelist::favorite_files(before).remove(file)
    };
    assert forall|f: Seq<char>| gamelist::favorite_files(after).contains(f) == want.contains(f) by {
        lemma_favorites(before, f);
        lemma_favorites(after, f);
        let m = Mark { file: f, starred: true };
        if exists|i: int| 0 <= i < after.len() && #[trigger] ma[i] == m {
            let i = choose|i: int| 0 <= i < after.len() && #[trigger] ma[i] == m;
            if i != k {
                assert(mb[i] == m);
                assert(before[i].file == f);
            }
        }
        if exists|i: int| 0 <= i < before.len() && #[trigger] mb[i] == m {
            let i = choose|i: int| 0 <= i < before.len() && #[trigger] mb[i] == m;
            if i != k {
                assert(ma[i] == m);
                assert(before[i].file == f);
            } else {
                assert(before[k].file == f);
                assert(ma[k] == Mark { file, starred: on });
            }
        }
        if on {
            assert(ma[k] == Mark { file, starred: true });
        }
    }
    assert(gamelist::favorite_files(after) =~= want);
}

// ---------------------------------------------------------------------------
// What a star leaves alone
// ---------------------------------------------------------------------------

/// A ROM is known where some game is about it.
proof fn lemma_known(gs: Seq<Game>, f: Seq<char>)
    ensures
        gamelist::known_files(gs).contains(f) == (exists|i: int|
            0 <= i < gs.len() && (#[trigger] marks(gs)[i]).file == f),
{
    let files = gs.map_values(|g: Game| g.file);
    if gamelist::known_files(gs).contains(f) {
        let i = files.index_of(f);
        assert(files.contains(f));
        assert(marks(gs)[i].file == f);
    }
    if exists|i: int| 0 <= i < gs.len() && (#[trigger] marks(gs)[i]).file == f {
        let i = choose|i: int| 0 <= i < gs.len() && (#[trigger] marks(gs)[i]).file == f;
        assert(files[i] == f);
    }
}

proof fn lemma_first_of_none(gs: Seq<Game>, file: Seq<char>)
    requires
        gamelist::first_of(gs, file) is None,
    ensures
        forall|i: int| 0 <= i < gs.len() ==> (#[trigger] gs[i]).file != file,
    decreases gs.len(),
{
    if gs.len() > 0 {
        lemma_first_of_none(gs.skip(1), file);
        assert forall|i: int| 0 <= i < gs.len() implies (#[trigger] gs[i]).file != file by {
            if i > 0 {
                assert(gs.skip(1)[i - 1] == gs[i]);
            }
        }
    }
}

/// No two games are about the same ROM.
pub open spec fn each_once(gs: Seq<Game>) -> bool {
    forall|i: int, j: int|
        0 <= i < j < gs.len() ==> (#[trigger] gs[i]).file != (#[trigger] gs[j]).file
}

/// Starring or unstarring a ROM makes it a favourite or none, and leaves every
/// other game the favourite it was or was not. Starring makes the ROM known;
/// nothing is ever forgotten. Something moves just where the ROM was not yet what
/// it was to be, and where nothing moves the list stays as it is.
pub proof fn law_a_star_is_set_and_no_other(t: Seq<char>, file: Seq<char>, on: bool)
    requires
        each_once(gamelist::games(t)),
        match gamelist::first_of(gamelist::games(t), file) {
            Some(k) => neat(t.subrange(gamelist::games(t)[k].start, gamelist::games(t)[k].end)),
            None => on ==> ends_after_games(t) && !text::starts(file, "./"@),
        },
    ensures
        ({
            let u = match gamelist::star(t, file, on) {
                Some(u) => u,
                None => t,
            };
            let starred = gamelist::favorite_files(gamelist::games(t));
            let known = gamelist::known_files(gamelist::games(t));
            &&& gamelist::favorite_files(gamelist::games(u)) == (if on {
                starred.insert(file)
            } else {
                starred.remove(file)
            })
            &&& gamelist::known_files(gamelist::games(u)) == (if on {
                known.insert(file)
            } else {
                known
            })
            &&& gamelist::star(t, file, on) is Some == (starred.contains(file) != on)
        }),
{
    let before = gamelist::games(t);
    let u = match gamelist::star(t, file, on) {
        Some(u) => u,
        None => t,
    };
    let after = gamelist::games(u);
    let starred = gamelist::favorite_files(before);
    let known = gamelist::known_files(before);
    let mb = marks(before);
    let ma = marks(after);
    lemma_favorites(before, file);
    lemma_known(before, file);
    match gamelist::first_of(before, file) {
        None => {
            lemma_first_of_none(before, file);
            assert forall|i: int| 0 <= i < before.len() implies (#[trigger] mb[i]).file != file by {
                assert(before[i].file != file);
            }
            if on {
                law_star_adds_a_game(t, file);
                let n = before.len() as int;
                assert(ma == mb.push(Mark { file, starred: true }));
                assert(after.len() == ma.len() && mb.len() == n);
                assert forall|f: Seq<char>| #[trigger]
                    gamelist::favorite_files(after).contains(f) == starred.insert(file).contains(f) by {
                    lemma_favorites(before, f);
                    lemma_favorites(after, f);
                    lemma_pushed(mb, Mark { file, starred: true }, f);
                }
                assert(gamelist::favorite_files(after) =~= starred.insert(file));
                assert forall|f: Seq<char>| #[trigger]
                    gamelist::known_files(after).contains(f) == known.insert(file).contains(f) by {
                    lemma_known(before, f);
                    lemma_known(after, f);
                    lemma_pushed(mb, Mark { file, starred: true }, f);
                }
                assert(gamelist::known_files(after) =~= known.insert(file));
            } else {
                assert(starred.remove(file) =~= starred);
            }
        },
        Some(k) => {
            lemma_first_of(before, file);
            assert(mb[k].file == file);
            assert(known.insert(file) =~= known);
            assert(starred.contains(file) == before[k].starred) by {
                if exists|i: int|
                    0 <= i < before.len() && #[trigger] mb[i] == (Mark { file, starred: true }) {
                    let i = choose|i: int|
                        0 <= i < before.len() && #[trigger] mb[i] == (Mark { file, starred: true });
                    assert(before[i].file == file);
                    assert(i == k);
                }
                if before[k].starred {
                    assert(mb[k] == Mark { file, starred: true });
                }
            }
            if before[k].starred == on {
                assert(starred.insert(file) =~= starred || !on);
                assert(starred.remove(file) =~= starred || on);
            } else {
                assert forall|i: int| 0 <= i < before.len() && i != k implies (
                #[trigger] before[i]).file != file by {
                    if i < k {
                        assert(before[i].file != before[k].file);
                    } else {
                        assert(before[k].file != before[i].file);
                    }
                }
                law_favorites_after_star(t, file, on);
                law_star_moves_one_star(t, file, on);
                assert(ma == mb.update(k, Mark { file, starred: on }));
                assert(after.len() == ma.len() && before.len() == mb.len());
                assert forall|f: Seq<char>| #[trigger]
                    gamelist::known_files(after).contains(f) == known.contains(f) by {
                    lemma_known(before, f);
                    lemma_known(after, f);
                    if exists|i: int| 0 <= i < before.len() && (#[trigger] mb[i]).file == f {
                        let i = choose|i: int| 0 <= i < before.len() && (#[trigger] mb[i]).file == f;
                        assert(ma[i].file == f);
                    }
                    if exists|i: int| 0 <= i < after.len() && (#[trigger] ma[i]).file == f {
                        let i = choose|i: int| 0 <= i < after.len() && (#[trigger] ma[i]).file == f;
                        assert(mb[i].file == f);
                    }
                }
                assert(gamelist::known_files(after) =~= known);
            }
        },
    }
}

/// What one more mark adds to what some marks say.
proof fn lemma_pushed(ms: Seq<Mark>, m: Mark, f: Seq<char>)
    ensures
        (exists|i: int| 0 <= i < ms.len() + 1 && #[trigger] ms.push(m)[i] == (Mark { file: f, starred: true }))
            == ((exists|i: int| 0 <= i < ms.len() && #[trigger] ms[i] == (Mark { file: f, starred: true }))
            || m == (Mark { file: f, starred: true })),
        (exists|i: int| 0 <= i < ms.len() + 1 && (#[trigger] ms.push(m)[i]).file == f) == ((exists|i: int|
            0 <= i < ms.len() && (#[trigger] ms[i]).file == f) || m.file == f),
{
    let all = ms.push(m);
    let want = Mark { file: f, starred: true };
    assert(all[ms.len() as int] == m);
    if exists|i: int| 0 <= i < ms.len() && #[trigger] ms[i] == want {
        let i = choose|i: int| 0 <= i < ms.len() && #[trigger] ms[i] == want;
        assert(all[i] == want);
    }
    if exists|i: int| 0 <= i < ms.len() && (#[trigger] ms[i]).file == f {
        let i = choose|i: int| 0 <= i < ms.len() && (#[trigger] ms[i]).file == f;
        assert(all[i].file == f);
    }
    if exists|i: int| 0 <= i < ms.len() + 1 && #[trigger] all[i] == want {
        let i = choose|i: int| 0 <= i < ms.len() + 1 && #[trigger] all[i] == want;
        if i < ms.len() {
            assert(ms[i] == want);
        }
    }
    if exists|i: int| 0 <= i < ms.len() + 1 && (#[trigger] all[i]).file == f {
        let i = choose|i: int| 0 <= i < ms.len() + 1 && (#[trigger] all[i]).file == f;
        if i < ms.len() {
            assert(ms[i].file == f);
        }
    }
}

// ---------------------------------------------------------------------------
// There and back
// ---------------------------------------------------------------------------

/// A block without the element, given it on a line of its own, gives it back.
proof fn lemma_restarred_back(b: Seq<char>)
    requires
        is_block(b),
        neat(b),
        text::find(b, "<favorite>"@) is None,
        gamelist::line_start(b, b.len() - 7) > 0,
    ensures
        neat(restarred(b, true)),
        restarred(restarred(b, true), false) == b,
{
    lemma_tags();
    let n = b.len() as int;
    let c = restarred(b, true);
    let i = gamelist::line_start(b, n - 7);
    let ind = gamelist::indent_of(b);
    let mid = ind + mark() + lines::feed();
    let m = i + ind.len();
    let (p, q) = gamelist::element(b, "<path>"@, "</path>"@).unwrap();
    lemma_restarred(b, true);
    lemma_indent(b);
    text::lemma_rfind(b, '\n', n - 7);
    text::lemma_find_from(b, "<favorite>"@, 0);
    assert(c == gamelist::splice(b, i, i, mid));
    assert(c.subrange(m, m + 25) =~= mark());
    assert(mid[0] == ind[0]);
    // The element is the one that was put in, and the only one.
    assert forall|k: int| 0 <= k && k != m implies !text::at(c, "<favorite>"@, k) by {
        lemma_at_splice(b, i, i, mid, "<favorite>"@, k);
        if text::at(c, "<favorite>"@, k) && i <= k < i + mid.len() {
            assert(c.subrange(k, k + 10)[0] == c[k]);
            assert(c[k] == mid[k - i]);
            if k < m {
                assert(mid[k - i] == ind[k - i]);
            } else if k < m + 25 {
                lemma_in_mark(c, m, k, "<favorite>"@);
            } else {
                assert(mid[k - i] == '\n');
            }
        }
        if k >= i + mid.len() {
            assert(!text::at(b, "<favorite>"@, k - mid.len()));
        }
    }
    assert(c.subrange(m, m + 10) =~= mark().subrange(0, 10));
    text::lemma_find_is(c, "<favorite>"@, 0, m);
    text::lemma_find_none(c, "<favorite>"@, m + 1);
    assert(c.subrange(m + 14, m + 25) =~= mark().subrange(14, 25));
    assert forall|k: int| m + 10 <= k < m + 14 implies !text::at(c, "</favorite>"@, k) by {
        if text::at(c, "</favorite>"@, k) {
            lemma_in_mark(c, m, k, "</favorite>"@);
        }
    }
    text::lemma_find_is(c, "</favorite>"@, m + 10, m + 14);
    assert(gamelist::element(c, "<favorite>"@, "</favorite>"@) == Some((m, m + 25)));
    // It stands on a line of its own, apart from the path.
    lemma_put_in(b);
    assert(c[m - 1] == ind[ind.len() - 1]);
    text::lemma_rfind(c, '\n', m);
    assert(gamelist::line_start(c, m) == i) by {
        assert(c[i - 1] == b[i - 1]);
        let at = text::rfind_before(c, '\n', m).unwrap();
        if at >= i {
            assert(c[at] == ind[at - i]);
        }
    }
    assert(c.subrange(i, m) =~= ind);
    assert(c[m + 25] == '\n');
    lines::lemma_feed_from(c, m + 25);
    assert(gamelist::line_end(c, m + 25) == m + 26);
    let end = c.subrange(m + 25, m + 26);
    assert(end[0] == '\n');
    assert(on_own_line(c, m, m + 25));
    assert(gamelist::splice(c, i, m + 26, Seq::empty()) =~= b);
}

/// Games about the same ROMs have the same first game of a ROM.
proof fn lemma_first_of_same(a: Seq<Game>, b: Seq<Game>, file: Seq<char>)
    requires
        a.len() == b.len(),
        forall|i: int| 0 <= i < a.len() ==> (#[trigger] a[i]).file == b[i].file,
    ensures
        gamelist::first_of(a, file) == gamelist::first_of(b, file),
    decreases a.len(),
{
    if a.len() > 0 {
        assert(a[0].file == b[0].file);
        let x = a.skip(1);
        let y = b.skip(1);
        assert forall|i: int| 0 <= i < x.len() implies (#[trigger] x[i]).file == y[i].file by {
            assert(a[i + 1].file == b[i + 1].file);
        }
        lemma_first_of_same(x, y, file);
    }
}

/// Starring a game and unstarring it again gives the list back as it was,
/// character for character, where the game's block ends on a line below the one
/// it begins on and had no `<favorite>` element.
pub proof fn law_unstarring_undoes_starring(t: Seq<char>, file: Seq<char>)
    requires
        gamelist::first_of(gamelist::games(t), file) matches Some(k) && {
            let g = gamelist::games(t)[k];
            let b = t.subrange(g.start, g.end);
            &&& neat(b)
            &&& text::find(b, "<favorite>"@) is None
            &&& gamelist::line_start(b, b.len() - 7) > 0
        },
    ensures
        gamelist::star(t, file, true) is Some,
        gamelist::star(gamelist::star(t, file, true).unwrap(), file, false) == Some(t),
{
    let gs = gamelist::games(t);
    let k = gamelist::first_of(gs, file).unwrap();
    let g = gs[k];
    lemma_first_of(gs, file);
    lemma_games_are_blocks(t, 0);
    lemma_starred_list(t, file);
    lemma_unstarred_block(t, g.start, g.end);
}

/// A list in which a game was starred: the game's block was exchanged, and the
/// game is still the first of its ROM.
proof fn lemma_starred_list(t: Seq<char>, file: Seq<char>)
    requires
        gamelist::first_of(gamelist::games(t), file) matches Some(k) && neat(
            t.subrange(gamelist::games(t)[k].start, gamelist::games(t)[k].end),
        ) && !gamelist::games(t)[k].starred,
    ensures
        ({
            let k = gamelist::first_of(gamelist::games(t), file).unwrap();
            let g = gamelist::games(t)[k];
            let c = restarred(t.subrange(g.start, g.end), true);
            let u = gamelist::splice(t, g.start, g.end, c);
            &&& gamelist::star(t, file, true) == Some(u)
            &&& gamelist::first_of(gamelist::games(u), file) == Some(k)
            &&& gamelist::game_of(u, g.start, g.start + c.len()) == Some(gamelist::games(u)[k])
            &&& gamelist::games(u)[k].starred
        }),
{
    let gs = gamelist::games(t);
    lemma_first_of(gs, file);
    lemma_games_are_blocks(t, 0);
    let k = gamelist::first_of(gs, file).unwrap();
    let g = gs[k];
    let b = t.subrange(g.start, g.end);
    let c = restarred(b, true);
    lemma_with_star(t, g.start, g.end, true);
    lemma_restarred(b, true);
    lemma_swap(t, 0, k, c);
    let u = gamelist::splice(t, g.start, g.end, c);
    let us = gamelist::games(u);
    assert(marks(us) == marks(gs).update(k, Mark { file, starred: true }));
    assert(us.len() == marks(us).len() && gs.len() == marks(gs).len());
    assert forall|i: int| 0 <= i < us.len() implies (#[trigger] us[i]).file == gs[i].file by {
        assert(marks(us)[i].file == us[i].file);
        assert(marks(gs)[i].file == gs[i].file);
    }
    lemma_first_of_same(us, gs, file);
    assert(marks(us)[k] == Mark { file, starred: true });
}

/// Unstarring the game of a block that was just given the element gives the list
/// back.
proof fn lemma_unstarred_block(t: Seq<char>, s: int, e: int)
    requires
        0 <= s,
        s + 7 <= e <= t.len(),
        is_block(t.subrange(s, e)),
        neat(t.subrange(s, e)),
        text::find(t.subrange(s, e), "<favorite>"@) is None,
        gamelist::line_start(t.subrange(s, e), e - s - 7) > 0,
    ensures
        ({
            let c = restarred(t.subrange(s, e), true);
            let u = gamelist::splice(t, s, e, c);
            gamelist::game_of(u, s, s + c.len()) matches Some(g) && gamelist::with_star(u, g, false) == t
        }),
{
    let b = t.subrange(s, e);
    let c = restarred(b, true);
    let u = gamelist::splice(t, s, e, c);
    lemma_restarred(b, true);
    lemma_restarred_back(b);
    assert(u.subrange(s, s + c.len()) =~= c);
    lemma_tags();
    text::lemma_find_from(c, "</game>"@, 0);
    lemma_with_star(u, s, s + c.len(), false);
    assert(gamelist::splice(u, s, s + c.len(), b) =~= t);
}

// ---------------------------------------------------------------------------
// A list in use
// ---------------------------------------------------------------------------

/// What one call of [`Gamelist::set_favorite`] makes of a list.
pub open spec fn set_once(before: Gamelist, file: Seq<char>, on: bool, moved: bool, after: Gamelist) -> bool {
    &&& moved == (gamelist::star(before.text(), file, on) is Some)
    &&& after.text() == match gamelist::star(before.text(), file, on) {
        Some(t) => t,
        None => before.text(),
    }
    &&& after.moved() == (before.moved() || moved)
    &&& after.place() == before.place()
}

/// However often a list is written to, it counts as changed just where some call
/// moved something, or where it counted as changed before; where none did it is
/// the list it was.
pub proof fn law_changed_where_some_call_moved(
    lists: Seq<Gamelist>,
    calls: Seq<(Seq<char>, bool)>,
    moved: Seq<bool>,
)
    requires
        lists.len() == calls.len() + 1,
        moved.len() == calls.len(),
        forall|i: int|
            0 <= i < calls.len() ==> set_once(
                lists[i],
                (#[trigger] calls[i]).0,
                calls[i].1,
                moved[i],
                lists[i + 1],
            ),
    ensures
        lists.last().moved() == (lists[0].moved() || exists|i: int| 0 <= i < moved.len() && moved[i]),
        (forall|i: int| 0 <= i < moved.len() ==> !moved[i]) ==> lists.last().text() == lists[0].text(),
    decreases calls.len(),
{
    if calls.len() > 0 {
        let n = calls.len() - 1;
        let ls = lists.drop_last();
        let cs = calls.drop_last();
        let ms = moved.drop_last();
        assert forall|i: int| 0 <= i < cs.len() implies set_once(
            ls[i],
            (#[trigger] cs[i]).0,
            cs[i].1,
            ms[i],
            ls[i + 1],
        ) by {
            assert(set_once(lists[i], calls[i].0, calls[i].1, moved[i], lists[i + 1]));
        }
        law_changed_where_some_call_moved(ls, cs, ms);
        assert(set_once(lists[n], calls[n].0, calls[n].1, moved[n], lists[n + 1]));
        assert forall|i: int| 0 <= i < ms.len() implies ms[i] == moved[i] by {}
        if exists|i: int| 0 <= i < ms.len() && ms[i] {
            let i = choose|i: int| 0 <= i < ms.len() && ms[i];
            assert(moved[i]);
        }
        if exists|i: int| 0 <= i < moved.len() && moved[i] {
            let i = choose|i: int| 0 <= i < moved.len() && moved[i];
            if i < n {
                assert(ms[i]);
            }
        }
    }
}

/// A list that was written where it is kept, and is loaded from there, has the
/// favourites and the games that it was written with.
pub proof fn law_a_saved_list_reads_back(list: Gamelist, disk: Disk, loaded: Gamelist)
    requires
        disk.at(list.place()) == Seen::Bytes(vstd::utf8::encode_utf8(list.text())),
        disk::whole_text(disk.at(list.place()), list.place()) == Ok::<
            Option<Seq<char>>,
            Seq<Seq<char>>,
        >(Some(loaded.text())),
    ensures
        loaded.text() == list.text(),
        gamelist::favorite_files(gamelist::games(loaded.text())) == gamelist::favorite_files(
            gamelist::games(list.text()),
        ),
        gamelist::known_files(gamelist::games(loaded.text())) == gamelist::known_files(
            gamelist::games(list.text()),
        ),
{
    vstd::utf8::encode_utf8_valid_utf8(list.text());
    vstd::utf8::encode_utf8_decode_utf8(list.text());
}

} // verus!
