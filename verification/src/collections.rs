//! Collections, as text files.
//!
//! One file per list, one game per line, `#` for comments. A list you can read,
//! compare, edit and restore without a server running is a list that survives the
//! server.
//!
//! ```text
//! # ★ Best of nes
//! nes/Castlevania (USA)
//! nes/Contra (USA)    # Contra
//! ```
//!
//! Membership is by name. A broken line is visible in a text file and fixable with
//! an editor. Names that match nothing are reported rather than dropped.

use vstd::prelude::*;
use crate::crypto;
use crate::favsync;
use crate::library;
use crate::lines;
use crate::order;
use crate::table::{Key, Table};
use crate::text;

verus! {

/// One curated list.
#[derive(Debug)]
pub struct Collection {
    /// The file's stem.
    pub id: String,
    pub name: String,
    pub description: Option<String>,
    pub rom_ids: Vec<i64>,
    pub rom_count: i64,
    pub is_favorite: bool,
    pub is_virtual: bool,
    pub is_smart: bool,
}

/// What a file asked for that the library does not have.
#[derive(Debug, PartialEq, Eq)]
pub struct Unmatched {
    pub collection: String,
    pub name: String,
}

/// What a game is found by: its platform and its name, both in lower case.
#[derive(Debug)]
pub struct NameKey {
    pub platform: String,
    pub name: String,
}

impl Key for NameKey {
    type K = (Seq<char>, Seq<char>);

    open spec fn of(&self) -> (Seq<char>, Seq<char>) {
        (self.platform@, self.name@)
    }

    fn same(&self, other: &NameKey) -> (r: bool) {
        text::same(&self.platform, &other.platform) && text::same(&self.name, &other.name)
    }
}

/// A game that a name can resolve to.
#[derive(Debug)]
pub struct Named {
    pub platform: String,
    pub name: String,
    pub file: String,
    pub id: i64,
}

impl View for Named {
    type V = (Seq<char>, Seq<char>, Seq<char>, i64);

    open spec fn view(&self) -> (Seq<char>, Seq<char>, Seq<char>, i64) {
        (self.platform@, self.name@, self.file@, self.id)
    }
}

/// Some games, as values.
pub open spec fn rows(v: Seq<Named>) -> Seq<(Seq<char>, Seq<char>, Seq<char>, i64)> {
    v.map_values(|n: Named| n@)
}

/// The ids of games by platform and name: each by what it is called and by the stem
/// of its file, in lower case. Of two under one name the later.
pub open spec fn names_of(games: Seq<(Seq<char>, Seq<char>, Seq<char>, i64)>) -> Map<(Seq<char>, Seq<char>), i64>
    decreases games.len(),
{
    if games.len() == 0 {
        Map::empty()
    } else {
        let (platform, name, file, id) = games.last();
        let slug = crypto::unicode_lower(platform);
        names_of(games.drop_last()).insert((slug, crypto::unicode_lower(name)), id).insert(
            (slug, crypto::unicode_lower(library::file_stem(file))),
            id,
        )
    }
}

/// What a list of names is resolved against. Neither side names games one way: a
/// game goes by what a scraper called it, or by its file where none did.
pub fn name_table(games: &Vec<Named>) -> (r: Table<NameKey, i64>)
    ensures
        r.wf(),
        r@ == names_of(rows(games@)),
{
    let ghost all = rows(games@);
    let mut out: Table<NameKey, i64> = Table::new();
    let mut i: usize = 0;
    while i < games.len()
        invariant
            all == rows(games@),
            i <= games@.len(),
            out.wf(),
            out@ == names_of(all.take(i as int)),
        decreases games@.len() - i,
    {
        assert(all.take(i + 1).drop_last() =~= all.take(i as int));
        let g = &games[i];
        let slug = crypto::lowercase(&g.platform);
        let first = NameKey { platform: text::owned(&slug), name: crypto::lowercase(&g.name) };
        out.insert(first, g.id);
        let second = NameKey { platform: slug, name: crypto::lowercase(&library::stem_of(&g.file)) };
        out.insert(second, g.id);
        i += 1;
    }
    assert(all.take(i as int) =~= all);
    out
}

/// A file of the collections' directory: its name, and its text where it could be
/// read.
#[derive(Debug)]
pub struct FoundFile {
    pub name: String,
    pub text: Option<String>,
}

/// A file's name, apart from the `.txt` it ends with. Nothing else is a list: not
/// a file of another kind, nor one that is all extension.
pub open spec fn stem(name: Seq<char>) -> Option<Seq<char>> {
    match text::rfind_before(name, '.', name.len() as int) {
        Some(i) => if i > 0 && name.skip(i + 1) == "txt"@ {
            Some(name.take(i))
        } else {
            None
        },
        None => None,
    }
}

/// The name of a list: what its first line says after a `#`, or else the file's
/// stem.
pub open spec fn list_name(stem: Seq<char>, ls: Seq<Seq<char>>) -> Seq<char> {
    if ls.len() > 0 && text::starts(ls[0], "#"@) && text::trim(ls[0].skip(1)).len() > 0 {
        text::trim(ls[0].skip(1))
    } else {
        stem
    }
}

/// What a line asks for: a platform, a name, and the name it may also go by.
pub struct Asked {
    pub platform: Seq<char>,
    pub name: Seq<char>,
    pub title: Option<Seq<char>>,
}

/// A line without the title that may stand behind it, and that title.
pub open spec fn without_title(line: Seq<char>) -> (Seq<char>, Option<Seq<char>>) {
    match text::find(line, "    #"@) {
        Some(i) => (text::trim_end(line.take(i)), Some(text::trim(line.skip(i + 5)))),
        None => (line, None),
    }
}

/// What a line asks for. A blank line and a comment ask for nothing.
pub open spec fn asked(raw: Seq<char>) -> Option<Asked> {
    let line = text::trim(raw);
    if line.len() == 0 || text::starts(line, "#"@) {
        None
    } else {
        let (key, title) = without_title(line);
        match text::cut(key, '/') {
            Some((p, n)) => Some(
                Asked { platform: crypto::unicode_lower(text::trim(p)), name: text::trim(n), title },
            ),
            None => Some(Asked { platform: Seq::empty(), name: key, title }),
        }
    }
}

/// The game a line asks for: by its name, or else by the title.
pub open spec fn hit(by_name: Map<(Seq<char>, Seq<char>), i64>, a: Asked) -> Option<i64> {
    let first = (a.platform, crypto::unicode_lower(a.name));
    if by_name.contains_key(first) {
        Some(by_name[first])
    } else {
        match a.title {
            Some(t) => if by_name.contains_key((a.platform, crypto::unicode_lower(t))) {
                Some(by_name[(a.platform, crypto::unicode_lower(t))])
            } else {
                None
            },
            None => None,
        }
    }
}

/// Whether a line asks for a game.
pub open spec fn asks_for(by_name: Map<(Seq<char>, Seq<char>), i64>, raw: Seq<char>, id: i64) -> bool {
    match asked(raw) {
        Some(a) => hit(by_name, a) == Some(id),
        None => false,
    }
}

/// The games that some lines ask for.
pub open spec fn members(ls: Seq<Seq<char>>, by_name: Map<(Seq<char>, Seq<char>), i64>) -> Set<i64> {
    Set::new(|id: i64| exists|i: int| 0 <= i < ls.len() && asks_for(by_name, #[trigger] ls[i], id))
}

/// The names that some lines ask for and the library does not have.
pub open spec fn missing(ls: Seq<Seq<char>>, by_name: Map<(Seq<char>, Seq<char>), i64>) -> Seq<Seq<char>>
    decreases ls.len(),
{
    if ls.len() == 0 {
        Seq::empty()
    } else {
        let before = missing(ls.drop_last(), by_name);
        match asked(ls.last()) {
            Some(a) => if hit(by_name, a) is None {
                before.push(a.name)
            } else {
                before
            },
            None => before,
        }
    }
}

/// Whether a collection is what a file says.
pub open spec fn is_list(
    c: Collection,
    stem: Seq<char>,
    t: Seq<char>,
    by_name: Map<(Seq<char>, Seq<char>), i64>,
) -> bool {
    let ls = lines::lines(t);
    &&& c.id@ == stem
    &&& c.name@ == list_name(stem, ls)
    &&& c.description is None
    &&& favsync::listing(members(ls, by_name), c.rom_ids@)
    &&& c.rom_count == c.rom_ids@.len() as i64
    &&& c.is_favorite == text::starts(c.name@, "★"@)
    &&& !c.is_virtual
    &&& !c.is_smart
}

fn stem_of(name: &str) -> (r: Option<String>)
    ensures
        text::opt(r) == stem(name@),
{
    let t = text::chars_of(name);
    let n: usize = t.len();
    match text::last_before(&t, '.', n) {
        Some(i) => {
            proof {
                text::lemma_rfind(t@, '.', n as int);
            }
            if i == 0 {
                return None;
            }
            let ext = text::part(&t, i + 1, n);
            assert(t@.subrange(i + 1, n as int) =~= t@.skip(i + 1));
            if text::same(&ext, "txt") {
                assert(t@.subrange(0, i as int) =~= t@.take(i as int));
                Some(text::part(&t, 0, i))
            } else {
                None
            }
        },
        None => None,
    }
}

fn name_of(stem: &str, ls: &Vec<String>) -> (r: String)
    ensures
        r@ == list_name(stem@, text::texts(ls@)),
{
    if ls.len() > 0 {
        assert(text::texts(ls@)[0] == ls@[0]@);
        if let Some(rest) = text::strip_prefix(&ls[0], "#") {
            proof {
                reveal_strlit("#");
                assert(ls@[0]@.skip("#"@.len() as int) == ls@[0]@.skip(1));
            }
            let t = text::trimmed(&rest);
            if !text::is_empty(&t) {
                return t;
            }
        } else {
            assert(text::after(ls@[0]@, "#"@) is None);
        }
    }
    text::owned(stem)
}

/// A line that asks for a game.
struct Line {
    platform: String,
    name: String,
    title: Option<String>,
}

spec fn line_view(l: Line) -> Asked {
    Asked { platform: l.platform@, name: l.name@, title: text::opt(l.title) }
}

fn split_title(line: &str) -> (r: (String, Option<String>))
    ensures
        (r.0@, text::opt(r.1)) == without_title(line@),
{
    let t = text::chars_of(line);
    let p = text::chars_of("    #");
    proof {
        reveal_strlit("    #");
    }
    match text::position_from(&t, &p, 0) {
        Some(i) => {
            proof {
                text::lemma_find_from(t@, p@, 0);
                assert(i + 5 <= t@.len());
                assert(t@.subrange(0, i as int) =~= t@.take(i as int));
                assert(t@.subrange(i + 5, t@.len() as int) =~= t@.skip(i + 5));
            }
            let n: usize = t.len();
            let front = text::part(&t, 0, i);
            let back = text::part(&t, i + 5, n);
            (text::without_trailing(&front), Some(text::trimmed(&back)))
        },
        None => (text::owned(line), None),
    }
}

fn line_of(raw: &str) -> (r: Option<Line>)
    ensures
        match r {
            Some(l) => asked(raw@) == Some(line_view(l)),
            None => asked(raw@) is None,
        },
{
    let line = text::trimmed(raw);
    if text::is_empty(&line) || text::starts_with(&line, "#") {
        return None;
    }
    let (key, title) = split_title(&line);
    match text::split_once(&key, '/') {
        Some((p, n)) => Some(
            Line { platform: crypto::lowercase(&text::trimmed(&p)), name: text::trimmed(&n), title },
        ),
        None => {
            let none = String::new();
            assert(none@ =~= Seq::<char>::empty());
            Some(Line { platform: none, name: key, title })
        },
    }
}

fn look_up(by_name: &Table<NameKey, i64>, l: &Line) -> (r: Option<i64>)
    ensures
        r == hit(by_name@, line_view(*l)),
{
    let key = NameKey { platform: text::owned(&l.platform), name: crypto::lowercase(&l.name) };
    if let Some(id) = by_name.get(&key) {
        return Some(*id);
    }
    match &l.title {
        Some(t) => {
            let key = NameKey { platform: text::owned(&l.platform), name: crypto::lowercase(t) };
            match by_name.get(&key) {
                Some(id) => Some(*id),
                None => None,
            }
        },
        None => None,
    }
}

/// A list, from the text of its file, and the names in it that match nothing.
///
/// Matching is case-insensitive and ignores surrounding whitespace, because these
/// files are meant to be edited by hand. The platform is part of what is matched:
/// a name alone is not unique across a library that holds both an arcade original
/// and its home port. Of the two names a line can carry the first is tried first.
pub fn parse(stem: &str, t: &str, by_name: &Table<NameKey, i64>) -> (r: (Collection, Vec<String>))
    ensures
        is_list(r.0, stem@, t@, by_name@),
        text::texts(r.1@) == missing(lines::lines(t@), by_name@),
{
    let ls = lines::lines_of(t);
    let ghost all = text::texts(ls@);
    let name = name_of(stem, &ls);
    let mut ids: Vec<i64> = Vec::new();
    let mut lost: Vec<String> = Vec::new();
    let mut i: usize = 0;
    assert(text::texts(lost@) =~= missing(all.take(0), by_name@));
    while i < ls.len()
        invariant
            all == text::texts(ls@),
            i <= ls@.len(),
            favsync::rising(ids@),
            forall|id: i64|
                #[trigger] ids@.contains(id) <==> exists|k: int|
                    0 <= k < i && asks_for(by_name@, #[trigger] all[k], id),
            text::texts(lost@) == missing(all.take(i as int), by_name@),
        decreases ls@.len() - i,
    {
        let ghost n = i as int;
        let ghost before = ids@;
        let ghost was = lost@;
        proof {
            assert(all.take(n + 1).drop_last() =~= all.take(n));
            assert(all[n] == ls@[n]@);
        }
        if let Some(l) = line_of(&ls[i]) {
            match look_up(by_name, &l) {
                Some(id) => favsync::put_in_order(&mut ids, id),
                None => {
                    let ghost said = l.name@;
                    lost.push(l.name);
                    assert(text::texts(lost@) =~= text::texts(was).push(said));
                },
            }
        }
        i += 1;
        proof {
            assert forall|id: i64| #[trigger] ids@.contains(id) <==> exists|k: int|
                0 <= k < i && asks_for(by_name@, #[trigger] all[k], id) by {
                assert(before.contains(id) <==> exists|k: int|
                    0 <= k < n && asks_for(by_name@, #[trigger] all[k], id));
                if asks_for(by_name@, all[n], id) {
                    assert(ids@.contains(id));
                }
            }
        }
    }
    proof {
        assert(all.take(i as int) =~= all);
        let want = members(all, by_name@);
        assert forall|k: int| 0 <= k < ids@.len() implies want.contains(#[trigger] ids@[k]) by {
            assert(ids@.contains(ids@[k]));
        }
        assert(favsync::listing(want, ids@));
    }
    let star = text::starts_with(&name, "★");
    let count: i64 = #[verifier::truncate] (ids.len() as i64);
    (
        Collection {
            id: text::owned(stem),
            name,
            description: None,
            rom_ids: ids,
            rom_count: count,
            is_favorite: star,
            is_virtual: false,
            is_smart: false,
        },
        lost,
    )
}

/// Some lists with one more among them, behind those whose files' names do not come
/// after its own.
pub open spec fn put_file(
    fs: Seq<(Seq<char>, Seq<char>, Seq<char>)>,
    f: (Seq<char>, Seq<char>, Seq<char>),
) -> Seq<(Seq<char>, Seq<char>, Seq<char>)>
    decreases fs.len(),
{
    if fs.len() > 0 && order::less(f.0, fs.last().0) {
        put_file(fs.drop_last(), f).push(fs.last())
    } else {
        fs.push(f)
    }
}

/// The lists among some files: the file's name, its stem and its text, in the order
/// of the names. A file that could not be read is left out.
pub open spec fn list_files(found: Seq<FoundFile>) -> Seq<(Seq<char>, Seq<char>, Seq<char>)>
    decreases found.len(),
{
    if found.len() == 0 {
        Seq::empty()
    } else {
        let before = list_files(found.drop_last());
        let f = found.last();
        match (stem(f.name@), f.text) {
            (Some(s), Some(t)) => put_file(before, (f.name@, s, t@)),
            _ => before,
        }
    }
}

/// The names that some lists ask for in vain, with the lists' own names.
pub open spec fn all_missing(
    fs: Seq<(Seq<char>, Seq<char>, Seq<char>)>,
    by_name: Map<(Seq<char>, Seq<char>), i64>,
) -> Seq<(Seq<char>, Seq<char>)>
    decreases fs.len(),
{
    if fs.len() == 0 {
        Seq::empty()
    } else {
        let ls = lines::lines(fs.last().2);
        let name = list_name(fs.last().1, ls);
        all_missing(fs.drop_last(), by_name) + missing(ls, by_name).map_values(|n: Seq<char>| (name, n))
    }
}

/// The unmatched names, as values.
pub open spec fn unmatched(v: Seq<Unmatched>) -> Seq<(Seq<char>, Seq<char>)> {
    v.map_values(|u: Unmatched| (u.collection@, u.name@))
}

/// A list's file, ready to be read.
struct ListFile {
    name: String,
    stem: String,
    text: String,
}

spec fn file_views(v: Seq<ListFile>) -> Seq<(Seq<char>, Seq<char>, Seq<char>)> {
    v.map_values(|f: ListFile| (f.name@, f.stem@, f.text@))
}

proof fn lemma_put_file(
    fs: Seq<(Seq<char>, Seq<char>, Seq<char>)>,
    f: (Seq<char>, Seq<char>, Seq<char>),
    i: int,
)
    requires
        0 <= i <= fs.len(),
        forall|k: int| i <= k < fs.len() ==> order::less(f.0, (#[trigger] fs[k]).0),
        i > 0 ==> !order::less(f.0, fs[i - 1].0),
    ensures
        put_file(fs, f) == fs.insert(i, f),
    decreases fs.len(),
{
    if i < fs.len() {
        let front = fs.drop_last();
        assert forall|k: int| i <= k < front.len() implies order::less(f.0, (#[trigger] front[k]).0) by {
            assert(front[k] == fs[k]);
        }
        assert(order::less(f.0, fs[fs.len() - 1].0));
        lemma_put_file(front, f, i);
        assert(front.insert(i, f).push(fs.last()) =~= fs.insert(i, f));
    } else {
        assert(fs.insert(i, f) =~= fs.push(f));
    }
}

fn sorted(found: &Vec<FoundFile>) -> (r: Vec<ListFile>)
    ensures
        file_views(r@) == list_files(found@),
{
    let mut out: Vec<ListFile> = Vec::new();
    let mut i: usize = 0;
    assert(file_views(out@) =~= list_files(found@.take(0)));
    while i < found.len()
        invariant
            i <= found@.len(),
            file_views(out@) == list_files(found@.take(i as int)),
        decreases found@.len() - i,
    {
        let f = &found[i];
        let ghost before = file_views(out@);
        let ghost was = out@;
        assert(found@.take(i + 1).drop_last() =~= found@.take(i as int));
        if let Some(s) = stem_of(&f.name) {
            if let Some(t) = &f.text {
                let one = ListFile { name: text::owned(&f.name), stem: s, text: text::owned(t) };
                let ghost seen = (one.name@, one.stem@, one.text@);
                let mut k: usize = out.len();
                while k > 0 && order::is_less(&one.name, &out[k - 1].name)
                    invariant
                        k <= out@.len(),
                        out@ == was,
                        before == file_views(out@),
                        forall|j: int| k <= j < out@.len() ==> order::less(one.name@, (#[trigger] before[j]).0),
                    decreases k,
                {
                    k -= 1;
                    assert(before[k as int].0 == out@[k as int].name@);
                }
                proof {
                    if k > 0 {
                        assert(before[k - 1].0 == out@[k - 1].name@);
                    }
                    lemma_put_file(before, seen, k as int);
                }
                out.insert(k, one);
                assert(file_views(out@) =~= before.insert(k as int, seen));
            }
        }
        i += 1;
    }
    assert(found@.take(i as int) =~= found@);
    out
}

/// Reads every list of a directory, resolving names against `by_name`, in the
/// order of the files' names.
pub fn load(found: &Vec<FoundFile>, by_name: &Table<NameKey, i64>) -> (r: (Vec<Collection>, Vec<Unmatched>))
    ensures
        ({
            let fs = list_files(found@);
            &&& r.0@.len() == fs.len()
            &&& forall|i: int| 0 <= i < fs.len() ==> is_list(#[trigger] r.0@[i], fs[i].1, fs[i].2, by_name@)
            &&& unmatched(r.1@) == all_missing(fs, by_name@)
        }),
{
    let files = sorted(found);
    let ghost fs = file_views(files@);
    let mut out: Vec<Collection> = Vec::new();
    let mut lost: Vec<Unmatched> = Vec::new();
    let mut i: usize = 0;
    assert(unmatched(lost@) =~= all_missing(fs.take(0), by_name@));
    while i < files.len()
        invariant
            fs == file_views(files@),
            i <= files@.len(),
            out@.len() == i,
            forall|k: int| 0 <= k < i ==> is_list(#[trigger] out@[k], fs[k].1, fs[k].2, by_name@),
            unmatched(lost@) == all_missing(fs.take(i as int), by_name@),
        decreases files@.len() - i,
    {
        let ghost n = i as int;
        proof {
            assert(fs.take(n + 1).drop_last() =~= fs.take(n));
            assert(fs[n] == (files@[n].name@, files@[n].stem@, files@[n].text@));
        }
        let (c, names) = parse(&files[i].stem, &files[i].text, by_name);
        let ghost own = c.name@;
        let ghost f = |x: Seq<char>| (own, x);
        let ghost ms = text::texts(names@);
        let ghost before = unmatched(lost@);
        let mut k: usize = 0;
        assert(before + ms.take(0).map_values(f) =~= before);
        while k < names.len()
            invariant
                ms == text::texts(names@),
                own == c.name@,
                f == (|x: Seq<char>| (own, x)),
                k <= names@.len(),
                unmatched(lost@) == before + ms.take(k as int).map_values(f),
            decreases names@.len() - k,
        {
            let ghost was = lost@;
            let u = Unmatched { collection: text::owned(&c.name), name: text::owned(&names[k]) };
            let ghost seen = (u.collection@, u.name@);
            lost.push(u);
            proof {
                assert(ms[k as int] == names@[k as int]@);
                assert(unmatched(lost@) =~= unmatched(was).push(seen));
                assert(before + ms.take(k + 1).map_values(f) =~= (before + ms.take(k as int).map_values(f)).push(
                    f(ms[k as int]),
                ));
            }
            k += 1;
        }
        assert(ms.take(k as int) =~= ms);
        out.push(c);
        i += 1;
    }
    assert(fs.take(i as int) =~= fs);
    (out, lost)
}

/// Every line that asks for something is answered: its game is in the list, or its
/// name is reported.
pub proof fn law_no_line_is_swallowed(ls: Seq<Seq<char>>, by_name: Map<(Seq<char>, Seq<char>), i64>, i: int)
    requires
        0 <= i < ls.len(),
        asked(ls[i]) is Some,
    ensures
        match hit(by_name, asked(ls[i]).unwrap()) {
            Some(id) => members(ls, by_name).contains(id),
            None => missing(ls, by_name).contains(asked(ls[i]).unwrap().name),
        },
    decreases ls.len(),
{
    match hit(by_name, asked(ls[i]).unwrap()) {
        Some(id) => {
            assert(asks_for(by_name, ls[i], id));
        },
        None => {
            let name = asked(ls[i]).unwrap().name;
            let all = missing(ls, by_name);
            if i == ls.len() - 1 {
                assert(all[all.len() - 1] == name);
            } else {
                let front = ls.drop_last();
                assert(front[i] == ls[i]);
                law_no_line_is_swallowed(front, by_name, i);
                let before = missing(front, by_name);
                let k = choose|k: int| 0 <= k < before.len() && before[k] == name;
                assert(all[k] == name);
            }
        },
    }
}

} // verus!
