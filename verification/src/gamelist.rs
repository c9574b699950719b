//! What EmulationStation thinks is a favourite.
//!
//! A system's list of games is edited as text, not as XML. It holds everything
//! the scraper found, and a parse and rewrite would quietly drop any tag that
//! nobody here has heard of. So the only characters that move are the ones
//! inside the `<favorite>` element.

use vstd::prelude::*;
use crate::disk;
use crate::disk::Disk;
use crate::failure::Failure;
use crate::lines;
use crate::order;
use crate::text;
use crate::xml;

verus! {

// ---------------------------------------------------------------------------
// What a list says
// ---------------------------------------------------------------------------

/// Whether a `<game>` block opens at `i`, with or without attributes.
/// `<gameList>` is not one.
pub open spec fn opens(t: Seq<char>, i: int) -> bool {
    text::at(t, "<game"@, i) && i + 5 < t.len() && (t[i + 5] == '>' || text::space(t[i + 5]))
}

/// Where the next `<game>` block opens, at or after `from`.
pub open spec fn game_from(t: Seq<char>, from: int) -> Option<int>
    decreases t.len() - from,
{
    if from < 0 || from >= t.len() {
        None
    } else if opens(t, from) {
        Some(from)
    } else {
        game_from(t, from + 1)
    }
}

/// Where the next `<game>…</game>` block begins and ends.
pub open spec fn block_from(t: Seq<char>, from: int) -> Option<(int, int)> {
    match game_from(t, from) {
        None => None,
        Some(s) => match text::find_from(t, "</game>"@, s) {
            None => None,
            Some(e) => Some((s, e + 7)),
        },
    }
}

/// Where the first element between two tags begins and ends in a block.
pub open spec fn element(b: Seq<char>, open: Seq<char>, close: Seq<char>) -> Option<(int, int)> {
    match text::find(b, open) {
        None => None,
        Some(a) => match text::find_from(b, close, a + open.len()) {
            None => None,
            Some(c) => Some((a, c + close.len())),
        },
    }
}

/// The text inside the first element between two tags of a block.
pub open spec fn inside(b: Seq<char>, open: Seq<char>, close: Seq<char>) -> Option<Seq<char>> {
    match element(b, open, close) {
        None => None,
        Some((a, e)) => Some(xml::unescaped(b.subrange(a + open.len(), e - close.len()))),
    }
}

/// The ROM a block is about: its path inside the system folder, without the
/// `./` it is written with.
pub open spec fn file_in(b: Seq<char>) -> Option<Seq<char>> {
    match inside(b, "<path>"@, "</path>"@) {
        None => None,
        Some(v) => Some(text::strip_all(v, "./"@)),
    }
}

/// Whether a block says that its ROM is a favourite.
pub open spec fn starred_in(b: Seq<char>) -> bool {
    match inside(b, "<favorite>"@, "</favorite>"@) {
        None => false,
        Some(v) => text::lower_text(text::trim(v)) == "true"@,
    }
}

/// A game of a list: its ROM, where its block is, where in it the
/// `<favorite>` element is, and whether it is a favourite.
pub struct Game {
    pub file: Seq<char>,
    pub start: int,
    pub end: int,
    pub favorite: Option<(int, int)>,
    pub starred: bool,
}

/// The game of a block, where it names a ROM.
pub open spec fn game_of(t: Seq<char>, start: int, end: int) -> Option<Game> {
    let b = t.subrange(start, end);
    match file_in(b) {
        None => None,
        Some(file) => Some(
            Game {
                file,
                start,
                end,
                favorite: match element(b, "<favorite>"@, "</favorite>"@) {
                    Some((x, y)) => Some((x + start, y + start)),
                    None => None,
                },
                starred: starred_in(b),
            },
        ),
    }
}

/// A block begins where it was looked for or later, and ends in the text.
pub proof fn lemma_block_from(t: Seq<char>, from: int)
    requires
        0 <= from,
    ensures
        block_from(t, from) matches Some((s, e)) ==> {
            &&& from <= s
            &&& s + 7 <= e <= t.len()
            &&& opens(t, s)
            &&& forall|i: int| from <= i < s ==> !opens(t, i)
            &&& text::find_from(t, "</game>"@, s) == Some(e - 7)
        },
{
    lemma_game_from(t, from);
    reveal_strlit("</game>");
    match game_from(t, from) {
        Some(s) => {
            text::lemma_find_from(t, "</game>"@, s);
        },
        None => {},
    }
}

/// Where a block opens is the first such place.
pub proof fn lemma_game_from(t: Seq<char>, from: int)
    requires
        0 <= from,
    ensures
        match game_from(t, from) {
            Some(s) => from <= s < t.len() && opens(t, s) && forall|i: int|
                from <= i < s ==> !opens(t, i),
            None => forall|i: int| from <= i ==> !opens(t, i),
        },
    decreases t.len() - from,
{
    if from < t.len() && !opens(t, from) {
        lemma_game_from(t, from + 1);
    }
}

/// The games of a list from `from` on, in the order in which they appear.
pub open spec fn games_from(t: Seq<char>, from: int) -> Seq<Game>
    decreases t.len() - from,
{
    if from < 0 {
        Seq::empty()
    } else {
        proof {
            lemma_block_from(t, from);
        }
        match block_from(t, from) {
            None => Seq::empty(),
            Some((s, e)) => match game_of(t, s, e) {
                Some(g) => seq![g] + games_from(t, e),
                None => games_from(t, e),
            },
        }
    }
}

/// The games of a list.
pub open spec fn games(t: Seq<char>) -> Seq<Game> {
    games_from(t, 0)
}

/// The first game of a ROM, counted from the beginning of the list.
pub open spec fn first_of(gs: Seq<Game>, file: Seq<char>) -> Option<int>
    decreases gs.len(),
{
    if gs.len() == 0 {
        None
    } else if gs[0].file == file {
        Some(0)
    } else {
        match first_of(gs.skip(1), file) {
            Some(i) => Some(i + 1),
            None => None,
        }
    }
}

// ---------------------------------------------------------------------------
// What a star does to a list
// ---------------------------------------------------------------------------

/// `t` with `mid` in place of what stands from `a` to `b`.
pub open spec fn splice(t: Seq<char>, a: int, b: int, mid: Seq<char>) -> Seq<char> {
    t.take(a) + mid + t.skip(b)
}

/// Where the line that `i` is on begins.
pub open spec fn line_start(t: Seq<char>, i: int) -> int {
    match text::rfind_before(t, '\n', i) {
        Some(k) => k + 1,
        None => 0,
    }
}

/// Where the line that `i` is on ends, its line feed taken with it.
pub open spec fn line_end(t: Seq<char>, i: int) -> int {
    match text::find_from(t, lines::feed(), i) {
        Some(k) => k + 1,
        None => t.len() as int,
    }
}

/// `t` without the line that `i` is on, where nothing is left on it.
pub open spec fn without_blank_line(t: Seq<char>, i: int) -> Seq<char> {
    let a = line_start(t, i);
    let b = line_end(t, i);
    if text::all_space(t.subrange(a, b)) {
        t.take(a) + t.skip(b)
    } else {
        t
    }
}

/// The white space the tags inside a block are indented with.
pub open spec fn indent_of(b: Seq<char>) -> Seq<char> {
    match text::find(b, "<path>"@) {
        Some(i) => {
            let before = b.subrange(line_start(b, i), i);
            if text::all_space(before) && before.len() > 0 {
                before
            } else {
                "\t\t"@
            }
        },
        None => "\t\t"@,
    }
}

/// Where a new element goes in a block: at the start of the line that `</game>` is
/// on, or before the tag where the whole block is on that line.
pub open spec fn insert_at(t: Seq<char>, start: int, end: int) -> int {
    let line = line_start(t, end - 7);
    if line <= start {
        end - 7
    } else {
        line
    }
}

/// What a game's ROM is called: its file name without what follows the last dot.
pub open spec fn title_of(file: Seq<char>) -> Seq<char> {
    text::before_last(text::after_last(file, '/'), '.')
}

/// The block of a game that nothing was scraped for.
pub open spec fn new_block(file: Seq<char>) -> Seq<char> {
    "\t<game>\n\t\t<path>./"@ + xml::escaped(file) + "</path>\n\t\t<name>"@ + xml::escaped(
        title_of(file),
    ) + "</name>\n\t\t<favorite>true</favorite>\n\t</game>\n"@
}

/// A list with a new game in it, before its end; none where the list does not
/// end.
pub open spec fn with_game(t: Seq<char>, file: Seq<char>) -> Option<Seq<char>> {
    match text::rfind(t, "</gameList>"@) {
        Some(i) => Some(splice(t, i, i, new_block(file))),
        None => None,
    }
}

/// A list with one of its games made a favourite, or made none.
pub open spec fn with_star(t: Seq<char>, g: Game, on: bool) -> Seq<char> {
    match g.favorite {
        // There and wrong: only the element is rewritten. An unstarred game
        // has no element, which is how ES itself leaves one.
        Some((a, b)) => if on {
            splice(t, a, b, "<favorite>true</favorite>"@)
        } else {
            without_blank_line(splice(t, a, b, Seq::empty()), a)
        },
        // Not there and wanted: in front of the closing tag, indented the way
        // the tags above it are.
        None => {
            let i = insert_at(t, g.start, g.end);
            splice(
                t,
                i,
                i,
                indent_of(t.subrange(g.start, g.end)) + "<favorite>true</favorite>\n"@,
            )
        },
    }
}

/// A list after a ROM was starred or unstarred; none where nothing moved.
pub open spec fn star(t: Seq<char>, file: Seq<char>, on: bool) -> Option<Seq<char>> {
    let gs = games(t);
    match first_of(gs, file) {
        None => if on {
            with_game(t, file)
        } else {
            None
        },
        Some(k) => if gs[k].starred == on {
            None
        } else {
            Some(with_star(t, gs[k], on))
        },
    }
}

// ---------------------------------------------------------------------------
// The list
// ---------------------------------------------------------------------------

/// One system's list of games, held as the text it is.
pub struct Gamelist {
    path: String,
    chars: Vec<char>,
    dirty: bool,
}

/// Where a block sits, and what it says.
struct Entry {
    file: String,
    start: usize,
    end: usize,
    favorite: Option<(usize, usize)>,
    starred: bool,
}

spec fn entry_game(e: Entry) -> Game {
    Game {
        file: e.file@,
        start: e.start as int,
        end: e.end as int,
        favorite: match e.favorite {
            Some((a, b)) => Some((a as int, b as int)),
            None => None,
        },
        starred: e.starred,
    }
}

spec fn entry_games(es: Seq<Entry>) -> Seq<Game> {
    es.map_values(|e: Entry| entry_game(e))
}

fn opens_at(t: &Vec<char>, i: usize) -> (r: bool)
    ensures
        r == opens(t@, i as int),
{
    let p = text::chars_of("<game");
    let n: usize = t.len();
    if !text::matches_at(t, &p, i) {
        return false;
    }
    proof {
        reveal_strlit("<game");
    }
    if n - i <= 5 {
        return false;
    }
    t[i + 5] == '>' || text::is_space(t[i + 5])
}

fn next_game(t: &Vec<char>, from: usize) -> (r: Option<usize>)
    ensures
        match r {
            Some(i) => game_from(t@, from as int) == Some(i as int),
            None => game_from(t@, from as int) is None,
        },
{
    let mut i: usize = from;
    while i < t.len()
        invariant
            from <= i,
            game_from(t@, from as int) == game_from(t@, i as int),
        decreases t@.len() - i,
    {
        if opens_at(t, i) {
            return Some(i);
        }
        i += 1;
    }
    None
}

fn next_block(t: &Vec<char>, from: usize) -> (r: Option<(usize, usize)>)
    ensures
        match r {
            Some((s, e)) => block_from(t@, from as int) == Some((s as int, e as int)) && from <= s
                && s + 7 <= e <= t@.len(),
            None => block_from(t@, from as int) is None,
        },
{
    proof {
        lemma_block_from(t@, from as int);
        reveal_strlit("</game>");
    }
    match next_game(t, from) {
        None => None,
        Some(s) => {
            let close = text::chars_of("</game>");
            let n: usize = t.len();
            match text::position_from(t, &close, s) {
                None => None,
                Some(e) => Some((s, e + 7)),
            }
        },
    }
}

fn element_of(b: &[char], open: &str, close: &str) -> (r: Option<(usize, usize)>)
    ensures
        match r {
            Some((x, y)) => element(b@, open@, close@) == Some((x as int, y as int)) && x + open@.len()
                + close@.len() <= y <= b@.len(),
            None => element(b@, open@, close@) is None,
        },
{
    let o = text::chars_of(open);
    let c = text::chars_of(close);
    let n: usize = b.len();
    match text::position_from(b, &o, 0) {
        None => None,
        Some(a) => match text::position_from(b, &c, a + o.len()) {
            None => None,
            Some(e) => Some((a, e + c.len())),
        },
    }
}

fn inside_of(b: &[char], open: &str, close: &str) -> (r: Option<String>)
    ensures
        text::opt(r) == inside(b@, open@, close@),
{
    let o = text::chars_of(open);
    let c = text::chars_of(close);
    match element_of(b, open, close) {
        None => None,
        Some((x, y)) => {
            let v = text::part(b, x + o.len(), y - c.len());
            Some(xml::unescape(&v))
        },
    }
}

fn is_starred(b: &[char]) -> (r: bool)
    ensures
        r == starred_in(b@),
{
    match inside_of(b, "<favorite>", "</favorite>") {
        None => false,
        Some(v) => {
            let v = text::lowered(&text::trimmed(&v));
            text::same(&v, "true")
        },
    }
}

fn entry_at(t: &Vec<char>, start: usize, end: usize) -> (r: Option<Entry>)
    requires
        start <= end <= t@.len(),
    ensures
        match r {
            Some(e) => game_of(t@, start as int, end as int) == Some(entry_game(e)) && e.start == start
                && e.end == end && (e.favorite matches Some((a, b)) ==> start <= a <= b <= end),
            None => game_of(t@, start as int, end as int) is None,
        },
{
    proof {
        reveal_strlit("./");
    }
    let b = vstd::slice::slice_subrange(t.as_slice(), start, end);
    match inside_of(b, "<path>", "</path>") {
        None => None,
        Some(path) => {
            let file = text::without_prefixes(&path, "./");
            let favorite = match element_of(b, "<favorite>", "</favorite>") {
                Some((x, y)) => Some((x + start, y + start)),
                None => None,
            };
            Some(Entry { file, start, end, favorite, starred: is_starred(b) })
        },
    }
}

/// Every block that names a ROM, in the order in which they appear.
fn entries(t: &Vec<char>) -> (r: Vec<Entry>)
    ensures
        entry_games(r@) == games(t@),
        forall|i: int|
            0 <= i < r@.len() ==> (#[trigger] r@[i]).start + 7 <= r@[i].end <= t@.len() && (
            r@[i].favorite matches Some((a, b)) ==> a <= b <= t@.len()),
{
    let mut out: Vec<Entry> = Vec::new();
    let mut from: usize = 0;
    assert(entry_games(out@) + games_from(t@, 0) =~= games(t@));
    loop
        invariant
            from <= t@.len(),
            entry_games(out@) + games_from(t@, from as int) == games(t@),
            forall|i: int|
                0 <= i < out@.len() ==> (#[trigger] out@[i]).start + 7 <= out@[i].end <= t@.len() && (
                out@[i].favorite matches Some((a, b)) ==> a <= b <= t@.len()),
        decreases t@.len() - from,
    {
        match next_block(t, from) {
            None => {
                assert(entry_games(out@) + Seq::<Game>::empty() =~= entry_games(out@));
                return out;
            },
            Some((s, e)) => {
                let ghost before = entry_games(out@);
                match entry_at(t, s, e) {
                    Some(entry) => {
                        let ghost g = entry_game(entry);
                        out.push(entry);
                        assert(entry_games(out@) =~= before.push(g));
                        assert(before.push(g) + games_from(t@, e as int) =~= before + (seq![g]
                            + games_from(t@, e as int)));
                    },
                    None => {},
                }
                from = e;
            },
        }
    }
}

fn first_entry(es: &Vec<Entry>, file: &str) -> (r: Option<usize>)
    ensures
        match r {
            Some(i) => i < es@.len() && first_of(entry_games(es@), file@) == Some(i as int),
            None => first_of(entry_games(es@), file@) is None,
        },
{
    let ghost gs = entry_games(es@);
    let mut i: usize = 0;
    assert(gs.skip(0) =~= gs);
    while i < es.len()
        invariant
            i <= es@.len(),
            gs == entry_games(es@),
            match first_of(gs.skip(i as int), file@) {
                Some(k) => first_of(gs, file@) == Some(k + i),
                None => first_of(gs, file@) is None,
            },
        decreases es@.len() - i,
    {
        assert(gs.skip(i as int)[0] == entry_game(es@[i as int]));
        if text::same(&es[i].file, file) {
            return Some(i);
        }
        assert(gs.skip(i as int).skip(1) =~= gs.skip(i + 1));
        i += 1;
    }
    None
}

/// `t` with `mid` in place of what stands from `a` to `b`.
pub fn spliced(t: &Vec<char>, a: usize, b: usize, mid: &str) -> (r: Vec<char>)
    requires
        a <= b <= t@.len(),
    ensures
        r@ == splice(t@, a as int, b as int, mid@),
{
    let n: usize = t.len();
    let mut out: Vec<char> = Vec::new();
    let mut i: usize = 0;
    while i < a
        invariant
            i <= a <= t@.len(),
            out@ == t@.take(i as int),
        decreases a - i,
    {
        out.push(t[i]);
        assert(t@.take(i + 1) =~= t@.take(i as int).push(t@[i as int]));
        i += 1;
    }
    let mut m = text::chars_of(mid);
    out.append(&mut m);
    let ghost front = out@;
    let mut k: usize = b;
    assert(front + t@.subrange(b as int, b as int) =~= front);
    while k < n
        invariant
            n == t@.len(),
            b <= k <= n,
            out@ == front + t@.subrange(b as int, k as int),
        decreases n - k,
    {
        out.push(t[k]);
        assert(t@.subrange(b as int, k + 1) =~= t@.subrange(b as int, k as int).push(t@[k as int]));
        assert(out@ =~= front + t@.subrange(b as int, k + 1));
        k += 1;
    }
    assert(t@.subrange(b as int, n as int) =~= t@.skip(b as int));
    assert(out@ =~= splice(t@, a as int, b as int, mid@));
    out
}

pub fn line_start_of(t: &[char], i: usize) -> (r: usize)
    requires
        i <= t@.len(),
    ensures
        r == line_start(t@, i as int),
        r <= i,
{
    match text::last_before(t, '\n', i) {
        Some(k) => k + 1,
        None => 0,
    }
}

fn is_blank(t: &[char], a: usize, b: usize) -> (r: bool)
    requires
        a <= b <= t@.len(),
    ensures
        r == text::all_space(t@.subrange(a as int, b as int)),
{
    let ghost s = t@.subrange(a as int, b as int);
    let mut i: usize = a;
    while i < b
        invariant
            a <= i <= b <= t@.len(),
            s == t@.subrange(a as int, b as int),
            forall|j: int| 0 <= j < i - a ==> text::space(#[trigger] s[j]),
        decreases b - i,
    {
        assert(s[i - a] == t@[i as int]);
        if !text::is_space(t[i]) {
            return false;
        }
        i += 1;
    }
    true
}

fn tidied(t: Vec<char>, i: usize) -> (r: Vec<char>)
    requires
        i <= t@.len(),
    ensures
        r@ == without_blank_line(t@, i as int),
{
    let n: usize = t.len();
    let a: usize = line_start_of(&t, i);
    let mut feed: Vec<char> = Vec::new();
    feed.push('\n');
    assert(feed@ =~= lines::feed());
    let b: usize = match text::position_from(&t, &feed, i) {
        Some(k) => k + 1,
        None => n,
    };
    if is_blank(&t, a, b) {
        let none: String = String::new();
        let r = spliced(&t, a, b, &none);
        assert(r@ =~= t@.take(a as int) + t@.skip(b as int));
        r
    } else {
        t
    }
}

fn indent_in(b: &[char]) -> (r: String)
    ensures
        r@ == indent_of(b@),
{
    let p = text::chars_of("<path>");
    match text::position_from(b, &p, 0) {
        Some(i) => {
            let a: usize = line_start_of(b, i);
            if a < i && is_blank(b, a, i) {
                text::part(b, a, i)
            } else {
                text::owned("\t\t")
            }
        },
        None => text::owned("\t\t"),
    }
}

fn new_block_of(file: &str) -> (r: String)
    ensures
        r@ == new_block(file@),
{
    let base = text::part_after_last(file, '/');
    let name = text::part_before_last(&base, '.');
    let mut s = text::owned("\t<game>\n\t\t<path>./");
    s.append(&xml::escape(file));
    s.append("</path>\n\t\t<name>");
    s.append(&xml::escape(&name));
    s.append("</name>\n\t\t<favorite>true</favorite>\n\t</game>\n");
    s
}

/// The strings of a list that has each once, ascending.
pub open spec fn favorite_files(gs: Seq<Game>) -> Set<Seq<char>> {
    gs.filter(|g: Game| g.starred).map_values(|g: Game| g.file).to_set()
}

/// The ROMs that some games are about.
pub open spec fn known_files(gs: Seq<Game>) -> Set<Seq<char>> {
    gs.map_values(|g: Game| g.file).to_set()
}

impl Gamelist {
    /// The text of the list.
    pub closed spec fn text(self) -> Seq<char> {
        self.chars@
    }

    /// Where the list is kept.
    pub closed spec fn place(self) -> Seq<char> {
        self.path@
    }

    /// Whether something moved since the list was read.
    pub closed spec fn moved(self) -> bool {
        self.dirty
    }

    /// A list as it was read.
    pub fn from_text(path: &str, text: &str) -> (r: Gamelist)
        ensures
            r.text() == text@,
            r.place() == path@,
            !r.moved(),
    {
        Gamelist { path: text::owned(path), chars: text::chars_of(text), dirty: false }
    }

    /// The list at a path. That there is none is an error too.
    pub fn load(disk: &Disk, path: &str) -> (r: Result<Gamelist, Failure>)
        ensures
            match r {
                Ok(g) => disk::whole_text(disk.at(path@), path@) == Ok::<
                    Option<Seq<char>>,
                    Seq<Seq<char>>,
                >(Some(g.text())) && g.place() == path@ && !g.moved(),
                Err(e) => match disk::whole_text(disk.at(path@), path@) {
                    Err(why) => e@ == why,
                    Ok(None) => e@ == seq!["reading "@ + path@, "No such file or directory"@],
                    Ok(Some(_)) => false,
                },
            },
    {
        match disk::read_whole(disk, path) {
            Ok(Some(t)) => Ok(Gamelist::from_text(path, &t)),
            Ok(None) => {
                let mut doing = text::owned("reading ");
                doing.append(path);
                let e = Failure::new("No such file or directory").context(&doing);
                assert(e@ =~= seq!["reading "@ + path@, "No such file or directory"@]);
                Err(e)
            },
            Err(e) => Err(e),
        }
    }

    /// An empty list, for a system that was never scraped.
    pub fn empty(path: &str) -> (r: Gamelist)
        ensures
            r.text() == "<?xml version=\"1.0\"?>\n<gameList>\n</gameList>\n"@,
            r.place() == path@,
            r.moved(),
    {
        Gamelist {
            path: text::owned(path),
            chars: text::chars_of("<?xml version=\"1.0\"?>\n<gameList>\n</gameList>\n"),
            dirty: true,
        }
    }

    /// The list, or `None` when the system has none yet.
    ///
    /// Only "not found" is `None`. Read as an empty list, one that cannot be
    /// read would be a list with no stars, and every star elsewhere would look
    /// unstarred here.
    pub fn load_if_present(disk: &Disk, path: &str) -> (r: Result<Option<Gamelist>, Failure>)
        ensures
            match r {
                Ok(Some(g)) => disk::whole_text(disk.at(path@), path@) == Ok::<
                    Option<Seq<char>>,
                    Seq<Seq<char>>,
                >(Some(g.text())) && g.place() == path@ && !g.moved(),
                Ok(None) => disk::whole_text(disk.at(path@), path@) == Ok::<
                    Option<Seq<char>>,
                    Seq<Seq<char>>,
                >(None),
                Err(e) => disk::whole_text(disk.at(path@), path@) == Err::<
                    Option<Seq<char>>,
                    Seq<Seq<char>>,
                >(e@),
            },
    {
        match disk::read_whole(disk, path) {
            Ok(Some(t)) => Ok(Some(Gamelist::from_text(path, &t))),
            Ok(None) => Ok(None),
            Err(e) => Err(e),
        }
    }

    /// The list, or an empty one when the system has none yet.
    pub fn load_or_empty(disk: &Disk, path: &str) -> (r: Result<Gamelist, Failure>)
        ensures
            match r {
                Ok(g) => g.place() == path@ && match disk::whole_text(disk.at(path@), path@) {
                    Ok(Some(t)) => g.text() == t && !g.moved(),
                    Ok(None) => g.text() == "<?xml version=\"1.0\"?>\n<gameList>\n</gameList>\n"@
                        && g.moved(),
                    Err(_) => false,
                },
                Err(e) => disk::whole_text(disk.at(path@), path@) == Err::<
                    Option<Seq<char>>,
                    Seq<Seq<char>>,
                >(e@),
            },
    {
        match Gamelist::load_if_present(disk, path) {
            Ok(Some(g)) => Ok(g),
            Ok(None) => Ok(Gamelist::empty(path)),
            Err(e) => Err(e),
        }
    }

    /// The ROMs that are starred, as paths inside the system folder, each once
    /// and in order.
    pub fn favorites(&self) -> (r: Vec<String>)
        ensures
            order::ascending(text::texts(r@)),
            text::texts(r@).to_set() == favorite_files(games(self.text())),
    {
        let es = entries(&self.chars);
        let ghost gs = entry_games(es@);
        let mut out: Vec<String> = Vec::new();
        let mut i: usize = 0;
        assert(text::texts(out@).to_set() =~= favorite_files(gs.take(0)));
        while i < es.len()
            invariant
                i <= es@.len(),
                gs == entry_games(es@),
                order::ascending(text::texts(out@)),
                text::texts(out@).to_set() == favorite_files(gs.take(i as int)),
            decreases es@.len() - i,
        {
            proof {
                let g = entry_game(es@[i as int]);
                assert(gs.take(i + 1) =~= gs.take(i as int).push(g));
                lemma_favorite_files_push(gs.take(i as int), g);
            }
            if es[i].starred {
                let _ = order::insert(&mut out, &es[i].file);
            }
            i += 1;
        }
        assert(gs.take(gs.len() as int) =~= gs);
        out
    }

    /// Every ROM that the list mentions, each once and in order.
    pub fn known(&self) -> (r: Vec<String>)
        ensures
            order::ascending(text::texts(r@)),
            text::texts(r@).to_set() == known_files(games(self.text())),
    {
        let es = entries(&self.chars);
        let ghost gs = entry_games(es@);
        let mut out: Vec<String> = Vec::new();
        let mut i: usize = 0;
        assert(text::texts(out@).to_set() =~= known_files(gs.take(0)));
        while i < es.len()
            invariant
                i <= es@.len(),
                gs == entry_games(es@),
                order::ascending(text::texts(out@)),
                text::texts(out@).to_set() == known_files(gs.take(i as int)),
            decreases es@.len() - i,
        {
            proof {
                let g = entry_game(es@[i as int]);
                let f = |g: Game| g.file;
                assert(gs.take(i + 1) =~= gs.take(i as int).push(g));
                assert(gs.take(i + 1).map_values(f) =~= gs.take(i as int).map_values(f).push(g.file));
                gs.take(i as int).map_values(f).lemma_push_to_set_commute(g.file);
            }
            let _ = order::insert(&mut out, &es[i].file);
            i += 1;
        }
        assert(gs.take(gs.len() as int) =~= gs);
        out
    }

    /// Stars a game, or unstars it. Says whether anything moved.
    ///
    /// A game that was never scraped has no block to edit, so a minimal one is
    /// added. Unstarring takes the element out.
    pub fn set_favorite(&mut self, file: &str, starred: bool) -> (r: bool)
        ensures
            r == (star(old(self).text(), file@, starred) is Some),
            final(self).text() == match star(old(self).text(), file@, starred) {
                Some(t) => t,
                None => old(self).text(),
            },
            final(self).moved() == (old(self).moved() || r),
            final(self).place() == old(self).place(),
    {
        let es = entries(&self.chars);
        let ghost gs = entry_games(es@);
        let ghost t = self.chars@;
        match first_entry(&es, file) {
            None => {
                if !starred {
                    return false;
                }
                let close = text::chars_of("</gameList>");
                match text::last_position(&self.chars, &close) {
                    None => false,
                    Some(i) => {
                        self.chars = spliced(&self.chars, i, i, &new_block_of(file));
                        self.dirty = true;
                        true
                    },
                }
            },
            Some(k) => {
                let e = &es[k];
                assert(gs[k as int] == entry_game(*e));
                if e.starred == starred {
                    return false;
                }
                match e.favorite {
                    Some((a, b)) => {
                        if starred {
                            self.chars = spliced(&self.chars, a, b, "<favorite>true</favorite>");
                        } else {
                            let none: String = String::new();
                            assert(none@ =~= Seq::<char>::empty());
                            let cut = spliced(&self.chars, a, b, &none);
                            self.chars = tidied(cut, a);
                        }
                    },
                    None => {
                        let close: usize = e.end - 7;
                        let line: usize = line_start_of(&self.chars, close);
                        let i: usize = if line <= e.start {
                            close
                        } else {
                            line
                        };
                        let b = vstd::slice::slice_subrange(self.chars.as_slice(), e.start, e.end);
                        let mut mid = indent_in(b);
                        mid.append("<favorite>true</favorite>\n");
                        self.chars = spliced(&self.chars, i, i, &mid);
                    },
                }
                self.dirty = true;
                true
            },
        }
    }

    /// Whether something moved since the list was read.
    pub fn changed(&self) -> (r: bool)
        ensures
            r == self.moved(),
    {
        self.dirty
    }

    /// Where the list is kept.
    pub fn path(&self) -> (r: &str)
        ensures
            r@ == self.place(),
    {
        &self.path
    }

    /// The text to write back, but only if something moved.
    pub fn save(&self) -> (r: Option<String>)
        ensures
            text::opt(r) == (if self.moved() {
                Some(self.text())
            } else {
                None
            }),
    {
        if self.dirty {
            Some(text::string_of(&self.chars))
        } else {
            None
        }
    }
}

proof fn lemma_favorite_files_push(gs: Seq<Game>, g: Game)
    ensures
        favorite_files(gs.push(g)) == (if g.starred {
            favorite_files(gs).insert(g.file)
        } else {
            favorite_files(gs)
        }),
{
    let f = |g: Game| g.starred;
    let h = |g: Game| g.file;
    gs.lemma_filter_push(g, f);
    if g.starred {
        let kept = gs.filter(f);
        assert(kept.push(g).map_values(h) =~= kept.map_values(h).push(g.file));
        kept.map_values(h).lemma_push_to_set_commute(g.file);
    }
}

} // verus!
