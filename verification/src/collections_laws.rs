//! What a list of names comes to: which games it holds, which names it asks for in
//! vain, and what it is called.

use vstd::prelude::*;
use crate::collections;
use crate::collections::{Collection, FoundFile, NameKey, Named, Unmatched};
use crate::crypto;
use crate::library;
use crate::lines;
use crate::order;
use crate::table::Table;
use crate::text;

verus! {

// ---------------------------------------------------------------------------
// Names
// ---------------------------------------------------------------------------

/// Whether a game goes by a name on a platform: by what it is called, or by its
/// file's name without the extension; small and capital letters alike.
pub open spec fn goes_by(g: Named, platform: Seq<char>, name: Seq<char>) -> bool {
    &&& crypto::unicode_lower(g.platform@) == platform
    &&& crypto::unicode_lower(g.name@) == name || crypto::unicode_lower(library::file_stem(g.file@)) == name
}

/// Whether a game is the last of some that go by a name.
pub open spec fn last_by(games: Seq<Named>, platform: Seq<char>, name: Seq<char>, i: int) -> bool {
    &&& 0 <= i < games.len()
    &&& goes_by(games[i], platform, name)
    &&& forall|j: int| i < j < games.len() ==> !goes_by(#[trigger] games[j], platform, name)
}

proof fn lemma_names_of(games: Seq<Named>, platform: Seq<char>, name: Seq<char>)
    ensures
        collections::names_of(collections::rows(games)).contains_key((platform, name)) <==> exists|i: int|
            0 <= i < games.len() && goes_by(#[trigger] games[i], platform, name),
        forall|i: int| #[trigger]
            last_by(games, platform, name, i) ==> collections::names_of(collections::rows(games))[(platform, name)]
                == games[i].id,
    decreases games.len(),
{
    if games.len() > 0 {
        let front = games.drop_last();
        let n = games.len() - 1;
        lemma_names_of(front, platform, name);
        assert(collections::rows(games).drop_last() =~= collections::rows(front));
        assert(collections::rows(games).last() == games[n]@);
        let all = collections::names_of(collections::rows(games));
        let hit = goes_by(games[n], platform, name);
        if all.contains_key((platform, name)) && !hit {
            let i = choose|i: int| 0 <= i < front.len() && goes_by(#[trigger] front[i], platform, name);
            assert(goes_by(games[i], platform, name));
        }
        if exists|i: int| 0 <= i < games.len() && goes_by(#[trigger] games[i], platform, name) {
            let i = choose|i: int| 0 <= i < games.len() && goes_by(#[trigger] games[i], platform, name);
            if i < n {
                assert(goes_by(front[i], platform, name));
            }
        }
        assert forall|i: int| #[trigger] last_by(games, platform, name, i) implies all[(platform, name)]
            == games[i].id by {
            if i < n {
                assert(!hit);
                assert forall|j: int| i < j < front.len() implies !goes_by(#[trigger] front[j], platform, name) by {
                    assert(games[j] == front[j]);
                }
                assert(last_by(front, platform, name, i));
            }
        }
    }
}

/// A name is known on a platform just where some game goes by it there, and it is
/// the last such game's.
pub proof fn law_a_game_is_known_by_its_names(games: &Vec<Named>, r: Table<NameKey, i64>)
    requires
        call_ensures(collections::name_table, (games,), r),
    ensures
        forall|platform: Seq<char>, name: Seq<char>| #[trigger]
            r@.contains_key((platform, name)) <==> exists|i: int|
                0 <= i < games@.len() && goes_by(#[trigger] games@[i], platform, name),
        forall|platform: Seq<char>, name: Seq<char>, i: int| #[trigger]
            last_by(games@, platform, name, i) ==> r@[(platform, name)] == games@[i].id,
{
    assert forall|platform: Seq<char>, name: Seq<char>| #[trigger]
        r@.contains_key((platform, name)) <==> exists|i: int|
            0 <= i < games@.len() && goes_by(#[trigger] games@[i], platform, name) by {
        lemma_names_of(games@, platform, name);
    }
    assert forall|platform: Seq<char>, name: Seq<char>, i: int| #[trigger]
        last_by(games@, platform, name, i) implies r@[(platform, name)] == games@[i].id by {
        lemma_names_of(games@, platform, name);
    }
}

// ---------------------------------------------------------------------------
// Lines
// ---------------------------------------------------------------------------

/// Whether a line is a key with perhaps a title behind it, which begins where four
/// spaces and a hash first stand.
pub open spec fn has_key(line: Seq<char>, key: Seq<char>, title: Option<Seq<char>>) -> bool {
    ||| {
        &&& forall|j: int| 0 <= j ==> !#[trigger] text::at(line, "    #"@, j)
        &&& key == line
        &&& title is None
    }
    ||| exists|i: int|
        {
            &&& 0 <= i && #[trigger] text::at(line, "    #"@, i)
            &&& forall|j: int| 0 <= j < i ==> !#[trigger] text::at(line, "    #"@, j)
            &&& key == text::trim_end(line.take(i))
            &&& title == Some(text::trim(line.skip(i + 5)))
        }
}

/// Whether a key is a platform, a slash and a name; or a name alone, on no platform.
pub open spec fn is_name_on(key: Seq<char>, platform: Seq<char>, name: Seq<char>) -> bool {
    ||| !key.contains('/') && platform.len() == 0 && name == key
    ||| exists|a: Seq<char>, b: Seq<char>|
        {
            &&& key == #[trigger] (a + seq!['/'] + b)
            &&& !a.contains('/')
            &&& platform == crypto::unicode_lower(text::trim(a))
            &&& name == text::trim(b)
        }
}

/// Whether a line asks for a name on a platform, with perhaps a title to go by. A
/// blank line does not, nor one that begins with a hash.
pub open spec fn asks(raw: Seq<char>, platform: Seq<char>, name: Seq<char>, title: Option<Seq<char>>) -> bool {
    let line = text::trim(raw);
    &&& line.len() > 0 && line[0] != '#'
    &&& exists|key: Seq<char>| #[trigger] has_key(line, key, title) && is_name_on(key, platform, name)
}

proof fn lemma_without_title(line: Seq<char>)
    ensures
        has_key(line, collections::without_title(line).0, collections::without_title(line).1),
        forall|key: Seq<char>, title: Option<Seq<char>>| #[trigger]
            has_key(line, key, title) ==> (key, title) == collections::without_title(line),
{
    text::lemma_find_from(line, "    #"@, 0);
    assert forall|key: Seq<char>, title: Option<Seq<char>>| #[trigger] has_key(line, key, title) implies (
        key,
        title,
    ) == collections::without_title(line) by {
        match text::find(line, "    #"@) {
            Some(i) => {
                assert(text::at(line, "    #"@, i));
                let k = choose|k: int|
                    {
                        &&& 0 <= k && #[trigger] text::at(line, "    #"@, k)
                        &&& forall|j: int| 0 <= j < k ==> !#[trigger] text::at(line, "    #"@, j)
                        &&& key == text::trim_end(line.take(k))
                        &&& title == Some(text::trim(line.skip(k + 5)))
                    };
                assert(k == i);
            },
            None => {},
        }
    }
}

proof fn lemma_asked(raw: Seq<char>)
    ensures
        collections::asked(raw) is None <==> forall|platform: Seq<char>, name: Seq<char>, title: Option<Seq<char>>|
            !#[trigger] asks(raw, platform, name, title),
        collections::asked(raw) matches Some(a) ==> asks(raw, a.platform, a.name, a.title),
        forall|platform: Seq<char>, name: Seq<char>, title: Option<Seq<char>>| #[trigger]
            asks(raw, platform, name, title) ==> collections::asked(raw) == Some(
                collections::Asked { platform, name, title },
            ),
{
    reveal_strlit("#");
    assert("#"@ =~= seq!['#']);
    let line = text::trim(raw);
    if line.len() > 0 {
        assert(line.take(1) =~= seq![line[0]]);
        if line.take(1) == "#"@ {
            assert(line.take(1)[0] == '#');
        }
        lemma_without_title(line);
        let (key, title) = collections::without_title(line);
        text::lemma_cut_first(key, '/');
        text::lemma_find_from(key, seq!['/'], 0);
        if text::cut(key, '/') is None {
            if key.contains('/') {
                let i = key.index_of('/');
                assert(key.subrange(i, i + 1) =~= seq!['/']);
                assert(text::at(key, seq!['/'], i));
            }
        }
        assert forall|platform: Seq<char>, name: Seq<char>| #[trigger] is_name_on(key, platform, name) implies (
        match text::cut(key, '/') {
            Some((p, n)) => platform == crypto::unicode_lower(text::trim(p)) && name == text::trim(n),
            None => platform == Seq::<char>::empty() && name == key,
        }) by {
            if !key.contains('/') && platform.len() == 0 && name == key {
                assert(platform =~= Seq::empty());
                if let Some((p, n)) = text::cut(key, '/') {
                    assert((p + seq!['/'] + n)[p.len() as int] == '/');
                    assert(key.contains('/'));
                }
            } else {
                let (a, b) = choose|a: Seq<char>, b: Seq<char>|
                    {
                        &&& key == #[trigger] (a + seq!['/'] + b)
                        &&& !a.contains('/')
                        &&& platform == crypto::unicode_lower(text::trim(a))
                        &&& name == text::trim(b)
                    };
                text::lemma_cut_joined(a, '/', b);
            }
        }
        assert forall|p: Seq<char>, n: Seq<char>, t: Option<Seq<char>>| #[trigger] asks(raw, p, n, t) implies collections::asked(
            raw,
        ) == Some(collections::Asked { platform: p, name: n, title: t }) by {
            let k = choose|k: Seq<char>| #[trigger] has_key(line, k, t) && is_name_on(k, p, n);
            assert((k, t) == (key, title));
            assert(is_name_on(key, p, n));
        }
        if let Some(a) = collections::asked(raw) {
            assert(is_name_on(key, a.platform, a.name)) by {
                match text::cut(key, '/') {
                    Some((p, n)) => {
                        assert(key == p + seq!['/'] + n);
                    },
                    None => {},
                }
            }
            assert(has_key(line, key, title));
            assert(asks(raw, a.platform, a.name, a.title));
        }
    }
}

/// Whether a line asks for a game: by its name, or where that is not known by its
/// title; small and capital letters alike.
pub open spec fn asks_for_game(raw: Seq<char>, by_name: Map<(Seq<char>, Seq<char>), i64>, id: i64) -> bool {
    exists|platform: Seq<char>, name: Seq<char>, title: Option<Seq<char>>|
        {
            let first = (platform, crypto::unicode_lower(name));
            &&& #[trigger] asks(raw, platform, name, title)
            &&& if by_name.contains_key(first) {
                by_name[first] == id
            } else {
                title matches Some(t) && by_name.contains_key((platform, crypto::unicode_lower(t)))
                    && by_name[(platform, crypto::unicode_lower(t))] == id
            }
        }
}

proof fn lemma_asks_for(raw: Seq<char>, by_name: Map<(Seq<char>, Seq<char>), i64>, id: i64)
    ensures
        collections::asks_for(by_name, raw, id) == asks_for_game(raw, by_name, id),
{
    lemma_asked(raw);
    if let Some(a) = collections::asked(raw) {
        assert(asks(raw, a.platform, a.name, a.title));
    }
}

/// Whether a line asks for a name, on whatever platform.
pub open spec fn asks_by_name(raw: Seq<char>, name: Seq<char>) -> bool {
    exists|platform: Seq<char>, title: Option<Seq<char>>| #[trigger] asks(raw, platform, name, title)
}

/// Whether a line asks for something that no game goes by.
pub open spec fn in_vain(by_name: Map<(Seq<char>, Seq<char>), i64>) -> spec_fn(Seq<char>) -> bool {
    |raw: Seq<char>|
        exists|platform: Seq<char>, name: Seq<char>, title: Option<Seq<char>>| #[trigger]
            asks(raw, platform, name, title) && !by_name.contains_key((platform, crypto::unicode_lower(name)))
                && (title matches Some(t) ==> !by_name.contains_key((platform, crypto::unicode_lower(t))))
}

proof fn lemma_in_vain(raw: Seq<char>, by_name: Map<(Seq<char>, Seq<char>), i64>)
    ensures
        in_vain(by_name)(raw) <==> (collections::asked(raw) matches Some(a) && collections::hit(by_name, a) is None),
{
    lemma_asked(raw);
    if let Some(a) = collections::asked(raw) {
        assert(asks(raw, a.platform, a.name, a.title));
    }
}

proof fn lemma_missing(ls: Seq<Seq<char>>, by_name: Map<(Seq<char>, Seq<char>), i64>)
    ensures
        collections::missing(ls, by_name).len() == ls.filter(in_vain(by_name)).len(),
        forall|k: int|
            0 <= k < ls.filter(in_vain(by_name)).len() ==> (collections::asked(
                #[trigger] ls.filter(in_vain(by_name))[k],
            ) matches Some(a) && a.name == collections::missing(ls, by_name)[k]),
    decreases ls.len(),
{
    reveal(Seq::filter);
    if ls.len() > 0 {
        lemma_missing(ls.drop_last(), by_name);
        lemma_in_vain(ls.last(), by_name);
    }
}

/// A list holds just the games that some line of it asks for, each once and in
/// order, and counts them. It names, line by line, what it asks for in vain. It is
/// called what its first line says after a hash, or else like its file; and it is a
/// favourite where that begins with a star.
pub proof fn law_a_list_holds_what_its_lines_ask_for(
    stem: &str,
    t: &str,
    by_name: &Table<NameKey, i64>,
    r: (Collection, Vec<String>),
)
    requires
        call_ensures(collections::parse, (stem, t, by_name), r),
    ensures
        ({
            let ls = lines::lines(t@);
            let lost = ls.filter(in_vain(by_name@));
            let c = r.0;
            &&& forall|id: i64| #[trigger]
                c.rom_ids@.contains(id) <==> exists|i: int|
                    0 <= i < ls.len() && asks_for_game(#[trigger] ls[i], by_name@, id)
            &&& forall|i: int, j: int| 0 <= i < j < c.rom_ids@.len() ==> #[trigger] c.rom_ids@[i] < #[trigger] c.rom_ids@[j]
            &&& c.rom_ids@.len() <= i64::MAX ==> c.rom_count == c.rom_ids@.len()
            &&& r.1@.len() == lost.len()
            &&& forall|k: int| 0 <= k < lost.len() ==> asks_by_name(lost[k], (#[trigger] r.1@[k])@)
            &&& c.id@ == stem@
            &&& if ls.len() > 0 && ls[0].len() > 0 && ls[0][0] == '#' && text::trim(ls[0].skip(1)).len() > 0 {
                c.name@ == text::trim(ls[0].skip(1))
            } else {
                c.name@ == stem@
            }
            &&& c.is_favorite <==> c.name@.len() > 0 && c.name@[0] == '★'
            &&& !c.is_virtual && !c.is_smart
        }),
{
    reveal_strlit("#");
    reveal_strlit("★");
    assert("#"@ =~= seq!['#']);
    assert("★"@ =~= seq!['★']);
    let ls = lines::lines(t@);
    let lost = ls.filter(in_vain(by_name@));
    let c = r.0;
    lemma_missing(ls, by_name@);
    let ms = text::texts(r.1@);
    assert forall|id: i64| #[trigger] c.rom_ids@.contains(id) <==> exists|i: int|
        0 <= i < ls.len() && asks_for_game(#[trigger] ls[i], by_name@, id) by {
        assert(c.rom_ids@.contains(id) == collections::members(ls, by_name@).contains(id));
        if collections::members(ls, by_name@).contains(id) {
            let i = choose|i: int|
                0 <= i < ls.len() && collections::asks_for(by_name@, #[trigger] ls[i], id);
            lemma_asks_for(ls[i], by_name@, id);
        }
        if exists|i: int| 0 <= i < ls.len() && asks_for_game(#[trigger] ls[i], by_name@, id) {
            let i = choose|i: int| 0 <= i < ls.len() && asks_for_game(#[trigger] ls[i], by_name@, id);
            lemma_asks_for(ls[i], by_name@, id);
            assert(collections::asks_for(by_name@, ls[i], id));
        }
    }
    assert forall|k: int| 0 <= k < lost.len() implies asks_by_name(lost[k], (#[trigger] r.1@[k])@) by {
        assert(ms[k] == r.1@[k]@);
        let a = collections::asked(lost[k]).unwrap();
        lemma_asked(lost[k]);
        assert(asks(lost[k], a.platform, r.1@[k]@, a.title));
    }
    if ls.len() > 0 && ls[0].len() > 0 {
        assert(ls[0].take(1) =~= seq![ls[0][0]]);
        if ls[0].take(1) == "#"@ {
            assert(ls[0].take(1)[0] == '#');
        }
    }
    if c.name@.len() > 0 {
        assert(c.name@.take(1) =~= seq![c.name@[0]]);
        if c.name@.take(1) == "★"@ {
            assert(c.name@.take(1)[0] == '★');
        }
    }
}

// ---------------------------------------------------------------------------
// Files
// ---------------------------------------------------------------------------

/// Whether a file is a list: its name ends in `.txt` and has something before that,
/// and it could be read.
pub open spec fn is_list_file() -> spec_fn(FoundFile) -> bool {
    |f: FoundFile|
        {
            let n = f.name@.len() as int;
            &&& f.text is Some
            &&& n > 4 && f.name@.subrange(n - 4, n) == seq!['.', 't', 'x', 't']
        }
}

proof fn lemma_stem(name: Seq<char>)
    ensures
        ({
            let n = name.len() as int;
            collections::stem(name) == (if n > 4 && name.subrange(n - 4, n) == seq!['.', 't', 'x', 't'] {
                Some(name.take(n - 4))
            } else {
                None
            })
        }),
{
    reveal_strlit("txt");
    assert("txt"@ =~= seq!['t', 'x', 't']);
    let n = name.len() as int;
    text::lemma_rfind(name, '.', n);
    if n > 4 && name.subrange(n - 4, n) == seq!['.', 't', 'x', 't'] {
        let e = name.subrange(n - 4, n);
        assert(e[0] == name[n - 4] && e[1] == name[n - 3] && e[2] == name[n - 2] && e[3] == name[n - 1]);
        assert(name.skip(n - 3) =~= "txt"@);
    }
    if let Some(i) = text::rfind_before(name, '.', n) {
        if i > 0 && name.skip(i + 1) == "txt"@ {
            assert(name.skip(i + 1).len() == 3);
            assert(i == n - 4);
            assert forall|k: int| 0 <= k < 3 implies name[i + 1 + k] == "txt"@[k] by {
                assert(name.skip(i + 1)[k] == name[i + 1 + k]);
            }
            assert(name.subrange(n - 4, n) =~= seq!['.', 't', 'x', 't']);
        }
    }
}

/// A file as what is read of it.
pub open spec fn read_of(f: FoundFile) -> (Seq<char>, Seq<char>, Seq<char>) {
    (f.name@, f.name@.take(f.name@.len() - 4), f.text.unwrap()@)
}

proof fn lemma_put(fs: Seq<(Seq<char>, Seq<char>, Seq<char>)>, f: (Seq<char>, Seq<char>, Seq<char>))
    requires
        forall|i: int, j: int| 0 <= i < j < fs.len() ==> !order::less((#[trigger] fs[j]).0, (#[trigger] fs[i]).0),
    ensures
        ({
            let r = collections::put_file(fs, f);
            &&& r.len() == fs.len() + 1
            &&& forall|i: int, j: int| 0 <= i < j < r.len() ==> !order::less((#[trigger] r[j]).0, (#[trigger] r[i]).0)
            &&& forall|x: (Seq<char>, Seq<char>, Seq<char>)| #[trigger] r.contains(x) == (fs.contains(x) || x == f)
        }),
    decreases fs.len(),
{
    let r = collections::put_file(fs, f);
    if fs.len() > 0 && order::less(f.0, fs.last().0) {
        let front = fs.drop_last();
        let last = fs.last();
        let n = fs.len() - 1;
        lemma_put(front, f);
        let some = collections::put_file(front, f);
        assert forall|i: int, j: int| 0 <= i < j < r.len() implies !order::less(
            (#[trigger] r[j]).0,
            (#[trigger] r[i]).0,
        ) by {
            if j == n + 1 {
                assert(some.contains(some[i]));
                if some[i] == f {
                    if order::less(last.0, f.0) {
                        order::lemma_transitive(f.0, last.0, f.0);
                        order::lemma_irreflexive(f.0);
                    }
                } else {
                    let k = front.index_of(some[i]);
                    assert(fs[k] == some[i] && fs[n] == last);
                }
            } else {
                assert(r[i] == some[i] && r[j] == some[j]);
            }
        }
        assert forall|x: (Seq<char>, Seq<char>, Seq<char>)| #[trigger] r.contains(x) == (fs.contains(x) || x
            == f) by {
            if r.contains(x) {
                let k = r.index_of(x);
                if k < some.len() {
                    assert(some[k] == x);
                    assert(some.contains(x));
                    if front.contains(x) {
                        assert(fs[front.index_of(x)] == x);
                    }
                } else {
                    assert(fs[n] == x);
                }
            }
            if fs.contains(x) || x == f {
                if x == last {
                    assert(r[r.len() - 1] == x);
                } else {
                    if fs.contains(x) {
                        let k = fs.index_of(x);
                        assert(front[k] == x);
                    }
                    assert(some.contains(x));
                    let k = some.index_of(x);
                    assert(r[k] == x);
                }
            }
        }
    } else {
        assert forall|i: int, j: int| 0 <= i < j < r.len() implies !order::less(
            (#[trigger] r[j]).0,
            (#[trigger] r[i]).0,
        ) by {
            if j == fs.len() {
                if order::less(f.0, fs[i].0) {
                    let l = fs[fs.len() - 1].0;
                    if i < fs.len() - 1 {
                        assert(!order::less(l, fs[i].0));
                        order::lemma_total(l, fs[i].0);
                        if order::less(fs[i].0, l) {
                            order::lemma_transitive(f.0, fs[i].0, l);
                        }
                    }
                }
            }
        }
        assert forall|x: (Seq<char>, Seq<char>, Seq<char>)| #[trigger] r.contains(x) == (fs.contains(x) || x
            == f) by {
            if r.contains(x) {
                let k = r.index_of(x);
                if k < fs.len() {
                    assert(fs[k] == x);
                }
            }
            if fs.contains(x) {
                assert(r[fs.index_of(x)] == x);
            }
            if x == f {
                assert(r[fs.len() as int] == x);
            }
        }
    }
}

/// The lists of a directory are its list files, in the order of their names.
proof fn lemma_list_files(found: Seq<FoundFile>)
    ensures
        ({
            let fs = collections::list_files(found);
            &&& fs.len() == found.filter(is_list_file()).len()
            &&& forall|i: int, j: int|
                0 <= i < j < fs.len() ==> !order::less((#[trigger] fs[j]).0, (#[trigger] fs[i]).0)
            &&& forall|x: (Seq<char>, Seq<char>, Seq<char>)| #[trigger]
                fs.contains(x) <==> exists|k: int|
                    0 <= k < found.len() && is_list_file()(#[trigger] found[k]) && x == read_of(found[k])
        }),
    decreases found.len(),
{
    reveal(Seq::filter);
    if found.len() > 0 {
        let front = found.drop_last();
        let f = found.last();
        let n = found.len() - 1;
        lemma_list_files(front);
        lemma_stem(f.name@);
        let before = collections::list_files(front);
        let fs = collections::list_files(found);
        assert(found[n] == f);
        if is_list_file()(f) {
            lemma_put(before, read_of(f));
        }
        assert forall|x: (Seq<char>, Seq<char>, Seq<char>)| #[trigger] fs.contains(x) <==> exists|k: int|
            0 <= k < found.len() && is_list_file()(#[trigger] found[k]) && x == read_of(found[k]) by {
            if fs.contains(x) {
                if before.contains(x) {
                    let k = choose|k: int|
                        0 <= k < front.len() && is_list_file()(#[trigger] front[k]) && x == read_of(front[k]);
                    assert(found[k] == front[k]);
                } else {
                    assert(is_list_file()(found[n]) && x == read_of(found[n]));
                }
            }
            if exists|k: int|
                0 <= k < found.len() && is_list_file()(#[trigger] found[k]) && x == read_of(found[k]) {
                let k = choose|k: int|
                    0 <= k < found.len() && is_list_file()(#[trigger] found[k]) && x == read_of(found[k]);
                if k < n {
                    assert(found[k] == front[k]);
                    assert(before.contains(x));
                }
            }
        }
    }
}

/// Whether a collection is the list of some file.
pub open spec fn from_some_file(c: Collection, found: Seq<FoundFile>, by_name: Map<(Seq<char>, Seq<char>), i64>) -> bool {
    exists|k: int|
        0 <= k < found.len() && is_list_file()(#[trigger] found[k]) && collections::is_list(
            c,
            read_of(found[k]).1,
            read_of(found[k]).2,
            by_name,
        )
}

/// Whether some collections have the list of a file.
pub open spec fn has_list_of(cs: Seq<Collection>, f: FoundFile, by_name: Map<(Seq<char>, Seq<char>), i64>) -> bool {
    exists|i: int|
        0 <= i < cs.len() && collections::is_list(#[trigger] cs[i], read_of(f).1, read_of(f).2, by_name)
}

/// Every list file of a directory is read, once, and no other file is; the lists go
/// by their files' names without the `.txt`.
pub proof fn law_every_list_file_is_read_once(
    found: &Vec<FoundFile>,
    by_name: &Table<NameKey, i64>,
    r: (Vec<Collection>, Vec<Unmatched>),
)
    requires
        call_ensures(collections::load, (found, by_name), r),
    ensures
        r.0@.len() == found@.filter(is_list_file()).len(),
        forall|i: int| 0 <= i < r.0@.len() ==> from_some_file(#[trigger] r.0@[i], found@, by_name@),
        forall|k: int|
            0 <= k < found@.len() && is_list_file()(#[trigger] found@[k]) ==> has_list_of(
                r.0@,
                found@[k],
                by_name@,
            ),
{
    let fs = collections::list_files(found@);
    lemma_list_files(found@);
    assert forall|i: int| 0 <= i < r.0@.len() implies from_some_file(#[trigger] r.0@[i], found@, by_name@) by {
        assert(fs.contains(fs[i]));
        let k = choose|k: int|
            0 <= k < found@.len() && is_list_file()(#[trigger] found@[k]) && fs[i] == read_of(found@[k]);
        assert(collections::is_list(r.0@[i], read_of(found@[k]).1, read_of(found@[k]).2, by_name@));
    }
    assert forall|k: int| 0 <= k < found@.len() && is_list_file()(#[trigger] found@[k]) implies has_list_of(
        r.0@,
        found@[k],
        by_name@,
    ) by {
        let x = read_of(found@[k]);
        assert(fs.contains(x));
        let i = fs.index_of(x);
        assert(collections::is_list(r.0@[i], x.1, x.2, by_name@));
    }
}

} // verus!
