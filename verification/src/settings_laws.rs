//! How `key=value` lines, marked blocks and gamelists are read.

use vstd::prelude::*;
use crate::blocks;
use crate::gamelist;
use crate::lines;
use crate::text;
use crate::xml;

verus! {

// ---------------------------------------------------------------------------
// Keys and values
// ---------------------------------------------------------------------------

/// Whether a line sets a key: it is no comment, and what stands before its first
/// equals sign, without the spaces round it, is the key.
pub open spec fn sets(line: Seq<char>, key: Seq<char>) -> bool {
    let l = text::trim(line);
    &&& l.len() > 0 && l[0] != '#'
    &&& key.len() > 0
    &&& exists|a: Seq<char>, b: Seq<char>|
        l == #[trigger] (a + seq!['='] + b) && !a.contains('=') && text::trim(a) == key
}

/// Whether a line gives a value: what stands after its first equals sign, without
/// the spaces round it; nothing where there is none.
pub open spec fn gives(line: Seq<char>, value: Seq<char>) -> bool {
    ||| !line.contains('=') && value.len() == 0
    ||| exists|a: Seq<char>, b: Seq<char>|
        line == #[trigger] (a + seq!['='] + b) && !a.contains('=') && value == text::trim(b)
}

proof fn lemma_key(line: Seq<char>, key: Seq<char>)
    ensures
        blocks::key(line) == Some(key) <==> sets(line, key),
{
    let l = text::trim(line);
    text::lemma_cut_first(l, '=');
    if blocks::key(line) == Some(key) {
        let (a, b) = text::cut(l, '=').unwrap();
        assert(l == a + seq!['='] + b);
    }
    if sets(line, key) {
        let (a, b) = choose|a: Seq<char>, b: Seq<char>|
            l == #[trigger] (a + seq!['='] + b) && !a.contains('=') && text::trim(a) == key;
        text::lemma_cut_joined(a, '=', b);
    }
}

proof fn lemma_value(line: Seq<char>, value: Seq<char>)
    ensures
        blocks::value(line) == value <==> gives(line, value),
{
    text::lemma_cut_first(line, '=');
    text::lemma_find_from(line, seq!['='], 0);
    match text::cut(line, '=') {
        Some((a, b)) => {
            assert(line == a + seq!['='] + b);
            assert((a + seq!['='] + b)[a.len() as int] == '=');
            assert(line.contains('='));
            if gives(line, value) {
                let (c, d) = choose|c: Seq<char>, d: Seq<char>|
                    line == #[trigger] (c + seq!['='] + d) && !c.contains('=') && value == text::trim(d);
                text::lemma_cut_joined(c, '=', d);
            }
        },
        None => {
            if line.contains('=') {
                let i = line.index_of('=');
                assert(line.subrange(i, i + 1) =~= seq!['=']);
                assert(text::at(line, seq!['='], i));
            }
            if gives(line, value) {
                if value.len() == 0 {
                    assert(value =~= Seq::empty());
                }
                if exists|a: Seq<char>, b: Seq<char>|
                    line == #[trigger] (a + seq!['='] + b) && !a.contains('=') && value == text::trim(b) {
                    let (c, d) = choose|c: Seq<char>, d: Seq<char>|
                        line == #[trigger] (c + seq!['='] + d) && !c.contains('=') && value == text::trim(d);
                    text::lemma_cut_joined(c, '=', d);
                }
            }
        },
    }
}

/// Whether a line is the first of some to set a key.
pub open spec fn first_to_set(ls: Seq<Seq<char>>, key: Seq<char>, i: int) -> bool {
    &&& 0 <= i < ls.len()
    &&& sets(ls[i], key)
    &&& forall|j: int| 0 <= j < i ==> !sets(#[trigger] ls[j], key)
}

proof fn lemma_first_setting(ls: Seq<Seq<char>>, key: Seq<char>)
    ensures
        match blocks::first_setting(ls, key) {
            Some(i) => first_to_set(ls, key, i),
            None => forall|j: int| 0 <= j < ls.len() ==> !sets(#[trigger] ls[j], key),
        },
    decreases ls.len(),
{
    if ls.len() > 0 {
        let front = ls.drop_last();
        let n = ls.len() - 1;
        lemma_first_setting(front, key);
        lemma_key(ls[n], key);
        assert forall|j: int| 0 <= j < n implies #[trigger] ls[j] == front[j] by {}
        if let Some(i) = blocks::first_setting(front, key) {
            assert forall|j: int| 0 <= j < i implies !sets(#[trigger] ls[j], key) by {
                assert(!sets(front[j], key));
            }
        } else {
            assert forall|j: int| 0 <= j < n implies !sets(#[trigger] ls[j], key) by {
                assert(!sets(front[j], key));
            }
        }
    }
}

/// A key has the value that the first line to set it gives, and none where no line
/// does.
pub proof fn law_the_first_line_to_set_a_key_counts(t: &str, key: &str, r: Option<String>)
    requires
        call_ensures(blocks::effective, (t, key), r),
    ensures
        ({
            let ls = lines::lines(t@);
            &&& forall|i: int| #[trigger] first_to_set(ls, key@, i) ==> (r matches Some(v) && gives(ls[i], v@))
            &&& (forall|j: int| 0 <= j < ls.len() ==> !sets(#[trigger] ls[j], key@)) ==> r is None
        }),
{
    let ls = lines::lines(t@);
    lemma_first_setting(ls, key@);
    assert forall|i: int| #[trigger] first_to_set(ls, key@, i) implies (r matches Some(v) && gives(ls[i], v@)) by {
        let k = blocks::first_setting(ls, key@).unwrap();
        assert(k == i) by {
            if k < i {
                assert(!sets(ls[k], key@));
            }
            if i < k {
                assert(!sets(ls[i], key@));
            }
        }
        lemma_value(ls[i], r.unwrap()@);
    }
}

proof fn lemma_keys(ls: Seq<Seq<char>>, key: Seq<char>)
    ensures
        blocks::keys(ls).contains(key) <==> exists|i: int| 0 <= i < ls.len() && sets(#[trigger] ls[i], key),
    decreases ls.len(),
{
    if ls.len() > 0 {
        let front = ls.drop_last();
        let n = ls.len() - 1;
        lemma_keys(front, key);
        lemma_key(ls[n], key);
        let before = blocks::keys(front);
        let all = blocks::keys(ls);
        if all.contains(key) {
            let k = all.index_of(key);
            if k < before.len() {
                assert(before[k] == key);
                let i = choose|i: int| 0 <= i < front.len() && sets(#[trigger] front[i], key);
                assert(sets(ls[i], key));
            } else {
                assert(sets(ls[n], key));
            }
        }
        if exists|i: int| 0 <= i < ls.len() && sets(#[trigger] ls[i], key) {
            let i = choose|i: int| 0 <= i < ls.len() && sets(#[trigger] ls[i], key);
            if i < n {
                assert(sets(front[i], key));
                assert(before.contains(key));
                assert(all[before.index_of(key)] == key);
            } else {
                assert(all[all.len() - 1] == key);
            }
        }
    }
}

/// Lines are in force in a text just where every key that one of them sets has, in
/// the text, the value that it has among them.
pub proof fn law_lines_are_in_force_where_every_key_agrees(t: &str, body: &str, r: bool)
    requires
        call_ensures(blocks::in_force, (t, body), r),
    ensures
        r <==> forall|i: int, key: Seq<char>|
            0 <= i < lines::lines(body@).len() && #[trigger] sets(lines::lines(body@)[i], key) ==> blocks::setting(
                lines::lines(t@),
                key,
            ) == blocks::setting(lines::lines(body@), key),
{
    let ls = lines::lines(body@);
    let ks = blocks::keys(ls);
    if r {
        assert forall|i: int, key: Seq<char>| 0 <= i < ls.len() && #[trigger] sets(ls[i], key) implies blocks::setting(
            lines::lines(t@),
            key,
        ) == blocks::setting(ls, key) by {
            lemma_keys(ls, key);
            let k = ks.index_of(key);
            assert(ks[k] == key);
        }
    } else {
        let k = choose|k: int|
            0 <= k < ks.len() && blocks::setting(lines::lines(t@), #[trigger] ks[k]) != blocks::setting(ls, ks[k]);
        let key = ks[k];
        assert(ks.contains(key));
        lemma_keys(ls, key);
        let i = choose|i: int| 0 <= i < ls.len() && sets(#[trigger] ls[i], key);
        assert(sets(ls[i], key));
    }
}

// ---------------------------------------------------------------------------
// Blocks
// ---------------------------------------------------------------------------

/// Whether a line is the first of some to be a marker.
pub open spec fn first_mark(ls: Seq<Seq<char>>, marker: Seq<char>, i: int) -> bool {
    &&& 0 <= i < ls.len()
    &&& text::trim(ls[i]) == marker
    &&& forall|j: int| 0 <= j < i ==> text::trim(#[trigger] ls[j]) != marker
}

proof fn lemma_first_marked(ls: Seq<Seq<char>>, marker: Seq<char>)
    ensures
        match blocks::first_marked(ls, marker) {
            Some(i) => first_mark(ls, marker, i),
            None => forall|j: int| 0 <= j < ls.len() ==> text::trim(#[trigger] ls[j]) != marker,
        },
    decreases ls.len(),
{
    if ls.len() > 0 {
        let front = ls.drop_last();
        let n = ls.len() - 1;
        lemma_first_marked(front, marker);
        assert forall|j: int| 0 <= j < n implies #[trigger] ls[j] == front[j] by {}
        if let Some(i) = blocks::first_marked(front, marker) {
            assert forall|j: int| 0 <= j < i implies text::trim(#[trigger] ls[j]) != marker by {
                assert(text::trim(front[j]) != marker);
            }
        } else {
            assert forall|j: int| 0 <= j < n implies text::trim(#[trigger] ls[j]) != marker by {
                assert(text::trim(front[j]) != marker);
            }
        }
    }
}

/// The body of a block is the lines between the first line that opens it and the
/// first after that which closes it; where there are no such two there is none.
pub proof fn law_a_block_is_what_stands_between_its_marks(t: &str, id: &str, r: Option<String>)
    requires
        call_ensures(blocks::read_block, (t, id), r),
    ensures
        ({
            let ls = lines::lines(t@);
            let open = "## moose-patch: "@ + id@;
            let close = "## moose-patch: "@ + id@ + " end"@;
            &&& forall|s: int, n: int| #[trigger]
                first_mark(ls, open, s) && #[trigger] first_mark(ls.skip(s + 1), close, n) ==> (r matches Some(b)
                    && b@ == text::join(ls.subrange(s + 1, s + 1 + n), lines::feed()))
            &&& r is Some ==> exists|s: int, n: int| #[trigger]
                first_mark(ls, open, s) && #[trigger] first_mark(ls.skip(s + 1), close, n)
        }),
{
    let ls = lines::lines(t@);
    let open = blocks::open_marker(id@);
    let close = blocks::close_marker(id@);
    lemma_first_marked(ls, open);
    if let Some(s) = blocks::first_marked(ls, open) {
        lemma_first_marked(ls.skip(s + 1), close);
    }
    assert forall|s: int, n: int| #[trigger]
        first_mark(ls, open, s) && #[trigger] first_mark(ls.skip(s + 1), close, n) implies (r matches Some(b) && b@
        == text::join(ls.subrange(s + 1, s + 1 + n), lines::feed())) by {
        let a = blocks::first_marked(ls, open).unwrap();
        assert(a == s) by {
            if a < s {
                assert(text::trim(ls[a]) != open);
            }
            if s < a {
                assert(text::trim(ls[s]) != open);
            }
        }
        let below = ls.skip(s + 1);
        let b = blocks::first_marked(below, close).unwrap();
        assert(b == n) by {
            if b < n {
                assert(text::trim(below[b]) != close);
            }
            if n < b {
                assert(text::trim(below[n]) != close);
            }
        }
    }
}

// ---------------------------------------------------------------------------
// Gamelists
// ---------------------------------------------------------------------------

/// Whether a value is what stands between the first of an opening tag and the next
/// closing one.
pub open spec fn stands_between(b: Seq<char>, open: Seq<char>, close: Seq<char>, a: int, e: int) -> bool {
    &&& 0 <= a && text::at(b, open, a)
    &&& forall|j: int| 0 <= j < a ==> !#[trigger] text::at(b, open, j)
    &&& a + open.len() <= e && text::at(b, close, e)
    &&& forall|j: int| a + open.len() <= j < e ==> !#[trigger] text::at(b, close, j)
}

proof fn lemma_element(b: Seq<char>, open: Seq<char>, close: Seq<char>)
    ensures
        forall|a: int, e: int| #[trigger]
            stands_between(b, open, close, a, e) ==> gamelist::element(b, open, close) == Some(
                (a, e + close.len()),
            ),
        gamelist::element(b, open, close) matches Some((a, x)) ==> stands_between(
            b,
            open,
            close,
            a,
            x - close.len(),
        ),
{
    text::lemma_find_from(b, open, 0);
    if let Some(k) = text::find(b, open) {
        text::lemma_find_from(b, close, k + open.len());
    }
    assert forall|a: int, e: int| #[trigger] stands_between(b, open, close, a, e) implies gamelist::element(
        b,
        open,
        close,
    ) == Some((a, e + close.len())) by {
        let k = text::find(b, open).unwrap();
        assert(text::at(b, open, a));
        assert(k == a);
        assert(text::at(b, close, e));
        let m = text::find_from(b, close, a + open.len()).unwrap();
        assert(m == e);
    }
}

proof fn lemma_strip_all(v: Seq<char>, p: Seq<char>)
    requires
        p.len() > 0,
    ensures
        !text::starts(text::strip_all(v, p), p),
        text::ends(v, text::strip_all(v, p)),
        !text::starts(v, p) ==> text::strip_all(v, p) == v,
    decreases v.len(),
{
    if text::starts(v, p) {
        let rest = v.skip(p.len() as int);
        lemma_strip_all(rest, p);
        let f = text::strip_all(v, p);
        assert(rest.skip(rest.len() - f.len()) =~= v.skip(v.len() - f.len()));
    } else {
        assert(v.skip(0) =~= v);
    }
}

/// A block of a gamelist is about the ROM that its first path element names, without
/// any `./` before it; a block without one is about none.
pub proof fn law_a_block_is_about_the_rom_its_path_names(b: Seq<char>)
    ensures
        forall|a: int, e: int| #[trigger]
            stands_between(b, "<path>"@, "</path>"@, a, e) ==> {
                let v = xml::unescaped(b.subrange(a + 6, e));
                &&& gamelist::file_in(b) matches Some(f) && text::ends(v, f) && !text::starts(f, "./"@)
                &&& !text::starts(v, "./"@) ==> gamelist::file_in(b) == Some(v)
            },
        gamelist::file_in(b) is Some ==> exists|a: int, e: int| #[trigger]
            stands_between(b, "<path>"@, "</path>"@, a, e),
{
    reveal_strlit("<path>");
    reveal_strlit("./");
    lemma_element(b, "<path>"@, "</path>"@);
    assert forall|a: int, e: int| #[trigger] stands_between(b, "<path>"@, "</path>"@, a, e) implies {
        let v = xml::unescaped(b.subrange(a + 6, e));
        &&& gamelist::file_in(b) matches Some(f) && text::ends(v, f) && !text::starts(f, "./"@)
        &&& !text::starts(v, "./"@) ==> gamelist::file_in(b) == Some(v)
    } by {
        lemma_strip_all(xml::unescaped(b.subrange(a + 6, e)), "./"@);
    }
}

/// A block is a favourite just where its first favourite element says `true`,
/// whatever the case of its letters and the space round it.
pub proof fn law_a_block_is_a_favourite_where_it_says_so(b: Seq<char>)
    ensures
        forall|a: int, e: int| #[trigger]
            stands_between(b, "<favorite>"@, "</favorite>"@, a, e) ==> gamelist::starred_in(b) == (
            text::lower_text(text::trim(xml::unescaped(b.subrange(a + 10, e)))) == "true"@),
        gamelist::starred_in(b) ==> exists|a: int, e: int| #[trigger]
            stands_between(b, "<favorite>"@, "</favorite>"@, a, e),
{
    reveal_strlit("<favorite>");
    lemma_element(b, "<favorite>"@, "</favorite>"@);
}

/// Whether a block of a list begins and ends at two places: it ends with the first
/// closing tag after it opens.
pub open spec fn is_block(t: Seq<char>, s: int, e: int) -> bool {
    &&& 0 <= s && gamelist::opens(t, s)
    &&& s <= e - 7 && text::at(t, "</game>"@, e - 7)
    &&& forall|j: int| s <= j < e - 7 ==> !#[trigger] text::at(t, "</game>"@, j)
}

/// Whether a game is read of a block.
pub open spec fn is_read_of(t: Seq<char>, g: gamelist::Game) -> bool {
    &&& is_block(t, g.start, g.end)
    &&& gamelist::file_in(t.subrange(g.start, g.end)) == Some(g.file)
    &&& g.starred == gamelist::starred_in(t.subrange(g.start, g.end))
}

proof fn lemma_is_block(t: Seq<char>, from: int)
    requires
        0 <= from,
    ensures
        gamelist::block_from(t, from) matches Some((s, e)) ==> is_block(t, s, e) && from <= s && e <= t.len(),
{
    gamelist::lemma_block_from(t, from);
    if let Some((s, e)) = gamelist::block_from(t, from) {
        text::lemma_find_from(t, "</game>"@, s);
    }
}

proof fn lemma_read_of(t: Seq<char>, from: int, k: int)
    requires
        0 <= from,
        0 <= k < gamelist::games_from(t, from).len(),
    ensures
        is_read_of(t, gamelist::games_from(t, from)[k]),
        gamelist::games_from(t, from)[k].start >= from,
        forall|l: int|
            0 <= l < k ==> (#[trigger] gamelist::games_from(t, from)[l]).end <= gamelist::games_from(t, from)[k].start,
    decreases t.len() - from,
{
    gamelist::lemma_block_from(t, from);
    lemma_is_block(t, from);
    let all = gamelist::games_from(t, from);
    let (s, e) = gamelist::block_from(t, from).unwrap();
    let rest = gamelist::games_from(t, e);
    match gamelist::game_of(t, s, e) {
        Some(g) => {
            if k > 0 {
                assert(all[k] == rest[k - 1]);
                lemma_read_of(t, e, k - 1);
                assert forall|l: int| 0 <= l < k implies (#[trigger] all[l]).end <= all[k].start by {
                    if l > 0 {
                        assert(all[l] == rest[l - 1]);
                    }
                }
            }
        },
        None => {
            lemma_read_of(t, e, k);
        },
    }
}

/// The games of a list are read of its blocks, in their order and none twice.
pub proof fn law_every_game_is_read_of_its_own_block(t: Seq<char>)
    ensures
        forall|k: int| 0 <= k < gamelist::games(t).len() ==> is_read_of(t, #[trigger] gamelist::games(t)[k]),
        forall|l: int, k: int|
            0 <= l < k < gamelist::games(t).len() ==> (#[trigger] gamelist::games(t)[l]).end <= (
            #[trigger] gamelist::games(t)[k]).start,
{
    assert forall|k: int| 0 <= k < gamelist::games(t).len() implies is_read_of(
        t,
        #[trigger] gamelist::games(t)[k],
    ) by {
        lemma_read_of(t, 0, k);
    }
    assert forall|l: int, k: int| 0 <= l < k < gamelist::games(t).len() implies (
    #[trigger] gamelist::games(t)[l]).end <= (#[trigger] gamelist::games(t)[k]).start by {
        lemma_read_of(t, 0, k);
        assert(gamelist::games_from(t, 0)[l] == gamelist::games(t)[l]);
    }
}

/// Whether a block of a list stands round a place and, where it names a ROM, is
/// among some games.
pub open spec fn is_accounted_for(t: Seq<char>, i: int, games: Seq<gamelist::Game>) -> bool {
    exists|s: int, e: int| #[trigger]
        is_block(t, s, e) && s <= i < e && (gamelist::game_of(t, s, e) matches Some(g) ==> games.contains(g))
}

proof fn lemma_accounted(t: Seq<char>, from: int, i: int, k: int)
    requires
        0 <= from <= i <= k,
        gamelist::opens(t, i),
        text::at(t, "</game>"@, k),
    ensures
        is_accounted_for(t, i, gamelist::games_from(t, from)),
    decreases t.len() - from,
{
    gamelist::lemma_game_from(t, from);
    let s = gamelist::game_from(t, from).unwrap();
    assert(s <= i);
    text::lemma_find_from(t, "</game>"@, s);
    assert(text::find_from(t, "</game>"@, s) is Some);
    gamelist::lemma_block_from(t, from);
    lemma_is_block(t, from);
    let (a, e) = gamelist::block_from(t, from).unwrap();
    let all = gamelist::games_from(t, from);
    let rest = gamelist::games_from(t, e);
    if i < e {
        if let Some(g) = gamelist::game_of(t, a, e) {
            assert(all[0] == g);
        }
        assert(is_block(t, a, e));
    } else {
        lemma_accounted(t, e, i, k);
        let (x, y) = choose|x: int, y: int| #[trigger]
            is_block(t, x, y) && x <= i < y && (gamelist::game_of(t, x, y) matches Some(g) ==> rest.contains(g));
        if let Some(g) = gamelist::game_of(t, x, y) {
            let m = rest.index_of(g);
            if gamelist::game_of(t, a, e) is Some {
                assert(all[m + 1] == g);
            } else {
                assert(all[m] == g);
            }
        }
        assert(is_block(t, x, y));
    }
}

/// No block is passed over: wherever a game opens that is closed at some place after
/// it, a block stands round that place, and its game is among the games of the list
/// where it names a ROM.
pub proof fn law_no_block_is_passed_over(t: Seq<char>, i: int, k: int)
    requires
        0 <= i <= k,
        gamelist::opens(t, i),
        text::at(t, "</game>"@, k),
    ensures
        is_accounted_for(t, i, gamelist::games(t)),
{
    lemma_accounted(t, 0, i, k);
}

} // verus!
