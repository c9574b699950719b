//! The library, as the API reports it.
//!
//! Everything is answered from a scan of the tree: the games in the order they were
//! found, the hashes an inventory holds for them, and the firmware beside them.

use vstd::prelude::*;
use crate::collections;
use crate::collections::Named;
use crate::crypto;
use crate::number;
use crate::order;
use crate::paths;
use crate::save_store;
use crate::table::{Key, Table};
use crate::text;

verus! {

/// A game, as the scan found it.
#[derive(Debug)]
pub struct Game {
    pub system: String,
    pub platform_slug: String,
    pub name: String,
    pub fs_name: String,
    /// The folder inside the system's, empty at the top.
    pub rel_dir: String,
    pub size_bytes: i64,
    pub summary: Option<String>,
    pub path: String,
}

/// Where the inventory keeps a file: its system, and its path inside that.
#[derive(Debug)]
pub struct HashKey {
    pub system: String,
    pub path: String,
}

impl Key for HashKey {
    type K = (Seq<char>, Seq<char>);

    open spec fn of(&self) -> (Seq<char>, Seq<char>) {
        (self.system@, self.path@)
    }

    fn same(&self, other: &HashKey) -> (r: bool) {
        text::same(&self.system, &other.system) && text::same(&self.path, &other.path)
    }
}

/// The hashes of a file, as far as they are known.
#[derive(Debug)]
pub struct FileHashes {
    pub md5: Option<String>,
    pub sha1: Option<String>,
    pub crc: Option<String>,
}

/// The hashes of a file, as values.
pub open spec fn hash_texts(h: FileHashes) -> (Option<Seq<char>>, Option<Seq<char>>, Option<Seq<char>>) {
    (text::opt(h.md5), text::opt(h.sha1), text::opt(h.crc))
}

/// A game, as the API reports it.
#[derive(Debug)]
pub struct Rom {
    pub id: i64,
    pub md5_hash: Option<String>,
    pub sha1_hash: Option<String>,
    pub crc_hash: Option<String>,
    pub name: Option<String>,
    pub fs_name: String,
    pub missing_from_fs: bool,
    pub fs_size_bytes: Option<i64>,
    pub platform_fs_slug: Option<String>,
    pub summary: Option<String>,
}

/// A game's path relative to its system's directory.
pub open spec fn rel_path(g: Game) -> Seq<char> {
    if g.rel_dir@.len() == 0 {
        g.fs_name@
    } else {
        g.rel_dir@ + "/"@ + g.fs_name@
    }
}

/// A game's path relative to its system's directory, which is how the inventory
/// keys its rows.
pub fn rel_of(g: &Game) -> (r: String)
    ensures
        r@ == rel_path(*g),
{
    if text::is_empty(&g.rel_dir) {
        text::owned(&g.fs_name)
    } else {
        let mut s = text::owned(&g.rel_dir);
        s.append("/");
        s.append(&g.fs_name);
        s
    }
}

/// The hashes of a game, where the inventory has them.
pub open spec fn hashes_of(g: Game, hashes: Map<(Seq<char>, Seq<char>), FileHashes>) -> (
    Option<Seq<char>>,
    Option<Seq<char>>,
    Option<Seq<char>>,
) {
    if hashes.contains_key((g.system@, rel_path(g))) {
        hash_texts(hashes[(g.system@, rel_path(g))])
    } else {
        (None, None, None)
    }
}

/// Whether a report is that of the game at a place in the scan. The place is the
/// id, counted from one: zero is what a missing field reads as.
pub open spec fn is_rom(r: Rom, i: int, g: Game, hashes: Map<(Seq<char>, Seq<char>), FileHashes>) -> bool {
    &&& r.id == i + 1
    &&& (text::opt(r.md5_hash), text::opt(r.sha1_hash), text::opt(r.crc_hash)) == hashes_of(g, hashes)
    &&& text::opt(r.name) == Some(g.name@)
    &&& r.fs_name@ == g.fs_name@
    &&& !r.missing_from_fs
    &&& r.fs_size_bytes == Some(g.size_bytes)
    &&& text::opt(r.platform_fs_slug) == Some(g.platform_slug@)
    &&& text::opt(r.summary) == text::opt(g.summary)
}

fn copied(t: &Option<String>) -> (r: Option<String>)
    ensures
        text::opt(r) == text::opt(*t),
{
    match t {
        Some(s) => Some(text::owned(s)),
        None => None,
    }
}

/// The report of the game at a place in the scan.
pub fn to_rom(i: usize, g: &Game, hashes: &Table<HashKey, FileHashes>) -> (r: Rom)
    requires
        i < i64::MAX,
    ensures
        is_rom(r, i as int, *g, hashes@),
{
    let key = HashKey { system: text::owned(&g.system), path: rel_of(g) };
    let (md5, sha1, crc) = match hashes.get(&key) {
        Some(h) => (copied(&h.md5), copied(&h.sha1), copied(&h.crc)),
        None => (None, None, None),
    };
    Rom {
        id: i as i64 + 1,
        md5_hash: md5,
        sha1_hash: sha1,
        crc_hash: crc,
        name: Some(text::owned(&g.name)),
        fs_name: text::owned(&g.fs_name),
        missing_from_fs: false,
        fs_size_bytes: Some(g.size_bytes),
        platform_fs_slug: Some(text::owned(&g.platform_slug)),
        summary: copied(&g.summary),
    }
}

/// Whether the client is to be told that it gets no hashes: true only when there
/// are none.
pub fn skip_hash(hashes: &Table<HashKey, FileHashes>) -> (r: bool)
    requires
        hashes.wf(),
    ensures
        r == (hashes@.dom().len() == 0),
{
    hashes.len() == 0
}

/// A page of games.
#[derive(Debug)]
pub struct RomPage {
    pub items: Vec<Rom>,
    pub total: i64,
}

/// How many games a page takes where nobody said.
pub const DEFAULT_LIMIT: usize = 50;

/// How many games a page has.
pub open spec fn page_len(total: int, limit: int, offset: int) -> int {
    if offset >= total {
        0
    } else if limit > total - offset {
        total - offset
    } else {
        limit
    }
}

/// A page of the games: so many of them, after so many others.
pub fn roms(games: &Vec<Game>, hashes: &Table<HashKey, FileHashes>, limit: usize, offset: usize) -> (r: RomPage)
    requires
        games@.len() <= i64::MAX,
    ensures
        r.total == games@.len(),
        r.items@.len() == page_len(games@.len() as int, limit as int, offset as int),
        forall|k: int|
            0 <= k < r.items@.len() ==> is_rom(#[trigger] r.items@[k], offset + k, games@[offset + k], hashes@),
{
    let n: usize = games.len();
    let mut items: Vec<Rom> = Vec::new();
    if offset < n {
        let mut left: usize = if limit > n - offset { n - offset } else { limit };
        let mut i: usize = offset;
        let ghost want = left;
        while left > 0
            invariant
                n == games@.len(),
                n <= i64::MAX,
                offset <= i,
                i + left <= n,
                i - offset + left == want,
                items@.len() == i - offset,
                forall|k: int|
                    0 <= k < items@.len() ==> is_rom(#[trigger] items@[k], offset + k, games@[offset + k], hashes@),
            decreases left,
        {
            items.push(to_rom(i, &games[i], hashes));
            i += 1;
            left -= 1;
        }
    }
    RomPage { items, total: n as i64 }
}

/// The place in the scan that an id names, where there is one.
pub fn place_of(id: i64, n: usize) -> (r: Option<usize>)
    ensures
        match r {
            Some(i) => i + 1 == id && i < n,
            None => id < 1 || id > n,
        },
{
    if id < 1 {
        return None;
    }
    let i: u64 = (id - 1) as u64;
    if i < n as u64 {
        Some(i as usize)
    } else {
        None
    }
}

/// The game of an id, where there is one.
pub fn rom_by_id(games: &Vec<Game>, hashes: &Table<HashKey, FileHashes>, id: i64) -> (r: Option<Rom>)
    ensures
        match r {
            Some(rom) => 1 <= id <= games@.len() && is_rom(rom, id - 1, games@[id - 1], hashes@),
            None => id < 1 || id > games@.len(),
        },
{
    match place_of(id, games.len()) {
        Some(i) => Some(to_rom(i, &games[i], hashes)),
        None => None,
    }
}

/// Every id there is: one for each game. It is a client's only way to notice that
/// a game is gone.
pub fn rom_identifiers(n: usize) -> (r: Vec<i64>)
    requires
        n <= i64::MAX,
    ensures
        r@ == Seq::new(n as nat, |i: int| (i + 1) as i64),
{
    let mut out: Vec<i64> = Vec::new();
    let mut i: usize = 0;
    while i < n
        invariant
            i <= n,
            n <= i64::MAX,
            out@ == Seq::new(i as nat, |k: int| (k + 1) as i64),
        decreases n - i,
    {
        let ghost before = out@;
        out.push(i as i64 + 1);
        i += 1;
        assert(out@ =~= Seq::new(i as nat, |k: int| (k + 1) as i64));
    }
    out
}

/// The ids that are listed are those of the games, and no other.
pub proof fn law_the_ids_are_those_of_the_games(n: usize, id: i64)
    requires
        n <= i64::MAX,
    ensures
        Seq::new(n as nat, |i: int| (i + 1) as i64).contains(id) <==> 1 <= id <= n,
{
    let ids = Seq::new(n as nat, |i: int| (i + 1) as i64);
    if 1 <= id <= n {
        assert(ids[id - 1] == id);
    }
}

/// Two pages, the second where the first ended, are one page of both their lengths:
/// no game is left out between them, and none is there twice.
pub proof fn law_pages_follow_each_other(total: int, first: int, second: int, offset: int)
    requires
        0 <= total,
        0 <= first,
        0 <= second,
        0 <= offset,
    ensures
        page_len(total, first, offset) + page_len(total, second, offset + first) == page_len(
            total,
            first + second,
            offset,
        ),
{
}

// ---------------------------------------------------------------------------
// Platforms
// ---------------------------------------------------------------------------

/// A platform, and how many games it has.
#[derive(Debug)]
pub struct Platform {
    pub id: i64,
    pub fs_slug: String,
    pub slug: String,
    pub name: Option<String>,
    pub rom_count: i64,
}

/// The slugs of some games.
pub open spec fn slugs(games: Seq<Game>) -> Seq<Seq<char>> {
    games.map_values(|g: Game| g.platform_slug@)
}

/// How many games a platform has.
pub open spec fn games_of(games: Seq<Game>, slug: Seq<char>) -> nat
    decreases games.len(),
{
    if games.len() == 0 {
        0
    } else {
        games_of(games.drop_last(), slug) + if games.last().platform_slug@ == slug {
            1nat
        } else {
            0nat
        }
    }
}

/// The system of the first game of a platform.
pub open spec fn first_system(games: Seq<Game>, slug: Seq<char>) -> Option<Seq<char>>
    decreases games.len(),
{
    if games.len() == 0 {
        None
    } else if games[0].platform_slug@ == slug {
        Some(games[0].system@)
    } else {
        first_system(games.skip(1), slug)
    }
}

/// The slugs of some games, in order, each once.
pub open spec fn slug_list(games: Seq<Game>) -> Seq<Seq<char>> {
    order::sorted(slugs(games))
}

fn slugs_of(games: &Vec<Game>) -> (r: Vec<String>)
    ensures
        text::texts(r@) == slug_list(games@),
        order::ascending(text::texts(r@)),
        text::texts(r@).to_set() == slugs(games@).to_set(),
{
    let ghost all = slugs(games@);
    let mut out: Vec<String> = Vec::new();
    let mut i: usize = 0;
    assert(text::texts(out@).to_set() =~= all.take(0).to_set());
    while i < games.len()
        invariant
            all == slugs(games@),
            i <= games@.len(),
            order::ascending(text::texts(out@)),
            text::texts(out@).to_set() == all.take(i as int).to_set(),
        decreases games@.len() - i,
    {
        proof {
            assert(all[i as int] == games@[i as int].platform_slug@);
            assert(all.take(i + 1) =~= all.take(i as int).push(all[i as int]));
            all.take(i as int).lemma_push_to_set_commute(all[i as int]);
        }
        let _ = order::insert(&mut out, &games[i].platform_slug);
        i += 1;
    }
    proof {
        assert(all.take(i as int) =~= all);
        order::lemma_sorted(all);
        order::lemma_ascending_unique(text::texts(out@), slug_list(games@));
    }
    out
}

fn count_of(games: &Vec<Game>, slug: &str) -> (r: usize)
    ensures
        r == games_of(games@, slug@),
        r <= games@.len(),
{
    let mut n: usize = 0;
    let mut i: usize = 0;
    while i < games.len()
        invariant
            n <= i <= games@.len(),
            n == games_of(games@.take(i as int), slug@),
        decreases games@.len() - i,
    {
        assert(games@.take(i + 1).drop_last() =~= games@.take(i as int));
        if text::same(&games[i].platform_slug, slug) {
            n += 1;
        }
        i += 1;
    }
    assert(games@.take(i as int) =~= games@);
    n
}

fn system_of(games: &Vec<Game>, slug: &str) -> (r: Option<String>)
    ensures
        text::opt(r) == first_system(games@, slug@),
{
    let mut i: usize = 0;
    assert(games@.skip(0) =~= games@);
    while i < games.len()
        invariant
            i <= games@.len(),
            first_system(games@, slug@) == first_system(games@.skip(i as int), slug@),
        decreases games@.len() - i,
    {
        proof {
            assert(games@.skip(i as int)[0] == games@[i as int]);
            assert(games@.skip(i as int).skip(1) =~= games@.skip(i + 1));
        }
        if text::same(&games[i].platform_slug, slug) {
            return Some(text::owned(&games[i].system));
        }
        i += 1;
    }
    None
}

/// The platforms there are games for, in the order of their slugs, with how many
/// games each has. A platform goes by the system of its first game.
pub fn platforms(games: &Vec<Game>) -> (r: Vec<Platform>)
    requires
        games@.len() <= i64::MAX,
    ensures
        r@.len() == slug_list(games@).len(),
        forall|i: int|
            0 <= i < r@.len() ==> {
                let p = #[trigger] r@[i];
                let slug = slug_list(games@)[i];
                &&& p.id == i + 1
                &&& p.fs_slug@ == slug
                &&& p.slug@ == slug
                &&& text::opt(p.name) == first_system(games@, slug)
                &&& p.rom_count == games_of(games@, slug)
            },
{
    let names = slugs_of(games);
    let ghost all = text::texts(names@);
    proof {
        lemma_no_more_slugs(games@);
    }
    let mut out: Vec<Platform> = Vec::new();
    let mut i: usize = 0;
    while i < names.len()
        invariant
            all == text::texts(names@),
            all == slug_list(games@),
            all.len() <= games@.len() <= i64::MAX,
            i <= names@.len(),
            out@.len() == i,
            forall|k: int|
                0 <= k < i ==> {
                    let p = #[trigger] out@[k];
                    &&& p.id == k + 1
                    &&& p.fs_slug@ == all[k]
                    &&& p.slug@ == all[k]
                    &&& text::opt(p.name) == first_system(games@, all[k])
                    &&& p.rom_count == games_of(games@, all[k])
                },
        decreases names@.len() - i,
    {
        assert(all[i as int] == names@[i as int]@);
        let p = Platform {
            id: i as i64 + 1,
            fs_slug: text::owned(&names[i]),
            slug: text::owned(&names[i]),
            name: system_of(games, &names[i]),
            rom_count: count_of(games, &names[i]) as i64,
        };
        out.push(p);
        i += 1;
    }
    out
}

proof fn lemma_each_once(l: Seq<Seq<char>>)
    requires
        order::ascending(l),
    ensures
        l.no_duplicates(),
{
    assert forall|i: int, j: int| 0 <= i < l.len() && 0 <= j < l.len() && i != j implies l[i] != l[j] by {
        if l[i] == l[j] {
            if i < j {
                assert(order::less(l[i], l[j]));
            } else {
                assert(order::less(l[j], l[i]));
            }
            order::lemma_irreflexive(l[i]);
        }
    }
}

proof fn lemma_no_more_slugs(games: Seq<Game>)
    requires
        order::ascending(slug_list(games)),
        slug_list(games).to_set() == slugs(games).to_set(),
    ensures
        slug_list(games).len() <= games.len(),
{
    let l = slug_list(games);
    lemma_each_once(l);
    l.unique_seq_to_set();
    slugs(games).lemma_cardinality_of_set();
}

/// How many games some platforms have in all.
pub open spec fn games_of_all(games: Seq<Game>, slugs: Seq<Seq<char>>) -> nat
    decreases slugs.len(),
{
    if slugs.len() == 0 {
        0
    } else {
        games_of_all(games, slugs.drop_last()) + games_of(games, slugs.last())
    }
}

proof fn lemma_one_more_game(games: Seq<Game>, slugs: Seq<Seq<char>>)
    requires
        games.len() > 0,
        slugs.no_duplicates(),
    ensures
        games_of_all(games, slugs) == games_of_all(games.drop_last(), slugs) + (if slugs.contains(
            games.last().platform_slug@,
        ) {
            1nat
        } else {
            0nat
        }),
    decreases slugs.len(),
{
    if slugs.len() > 0 {
        let front = slugs.drop_last();
        let slug = games.last().platform_slug@;
        lemma_one_more_game(games, front);
        if front.contains(slug) {
            let k = choose|k: int| 0 <= k < front.len() && front[k] == slug;
            assert(slugs[k] == slug);
            assert(slugs[slugs.len() - 1] != slug);
        } else if slugs.contains(slug) {
            let k = choose|k: int| 0 <= k < slugs.len() && slugs[k] == slug;
            if k < front.len() {
                assert(front[k] == slug);
            }
        }
        assert(slugs[slugs.len() - 1] == slugs.last());
    }
}

proof fn lemma_every_game_counts(games: Seq<Game>, slugs: Seq<Seq<char>>)
    requires
        slugs.no_duplicates(),
        forall|i: int| 0 <= i < games.len() ==> slugs.contains((#[trigger] games[i]).platform_slug@),
    ensures
        games_of_all(games, slugs) == games.len(),
    decreases games.len(),
{
    if games.len() > 0 {
        let front = games.drop_last();
        assert forall|i: int| 0 <= i < front.len() implies slugs.contains((#[trigger] front[i]).platform_slug@) by {
            assert(front[i] == games[i]);
        }
        lemma_every_game_counts(front, slugs);
        assert(slugs.contains(games[games.len() - 1].platform_slug@));
        lemma_one_more_game(games, slugs);
    } else {
        assert(games =~= Seq::empty());
        lemma_no_games(slugs);
    }
}

proof fn lemma_no_games(slugs: Seq<Seq<char>>)
    ensures
        games_of_all(Seq::empty(), slugs) == 0,
    decreases slugs.len(),
{
    if slugs.len() > 0 {
        lemma_no_games(slugs.drop_last());
    }
}

/// Every game is counted once: the games of the platforms are all the games there
/// are.
pub proof fn law_platform_counts_add_up(games: Seq<Game>)
    ensures
        games_of_all(games, slug_list(games)) == games.len(),
{
    let l = slug_list(games);
    order::lemma_sorted(slugs(games));
    lemma_each_once(l);
    assert forall|i: int| 0 <= i < games.len() implies l.contains((#[trigger] games[i]).platform_slug@) by {
        assert(slugs(games)[i] == games[i].platform_slug@);
        assert(slugs(games).to_set().contains(games[i].platform_slug@));
        assert(l.to_set().contains(games[i].platform_slug@));
    }
    lemma_every_game_counts(games, l);
}

// ---------------------------------------------------------------------------
// Names
// ---------------------------------------------------------------------------

/// A file's name without its last extension.
pub open spec fn file_stem(name: Seq<char>) -> Seq<char> {
    match text::rfind_before(name, '.', name.len() as int) {
        Some(i) => if i > 0 {
            name.take(i)
        } else {
            name
        },
        None => name,
    }
}

/// A file's name without its last extension.
pub fn stem_of(name: &str) -> (r: String)
    ensures
        r@ == file_stem(name@),
{
    let t = text::chars_of(name);
    let n: usize = t.len();
    match text::last_before(&t, '.', n) {
        Some(i) => {
            proof {
                text::lemma_rfind(t@, '.', n as int);
                assert(t@.subrange(0, i as int) =~= t@.take(i as int));
            }
            if i > 0 {
                return text::part(&t, 0, i);
            }
        },
        None => {},
    }
    text::owned(name)
}

/// The games, as what names are resolved against: each with its place in the scan,
/// from one.
pub open spec fn numbered(games: Seq<Game>) -> Seq<(Seq<char>, Seq<char>, Seq<char>, i64)> {
    Seq::new(
        games.len(),
        |i: int| (games[i].platform_slug@, games[i].name@, games[i].fs_name@, (i + 1) as i64),
    )
}

/// The games, as what names are resolved against.
pub fn named(games: &Vec<Game>) -> (r: Vec<Named>)
    requires
        games@.len() <= i64::MAX,
    ensures
        collections::rows(r@) == numbered(games@),
{
    let mut out: Vec<Named> = Vec::new();
    let mut i: usize = 0;
    while i < games.len()
        invariant
            games@.len() <= i64::MAX,
            i <= games@.len(),
            out@.len() == i,
            forall|k: int| 0 <= k < i ==> (#[trigger] out@[k])@ == numbered(games@)[k],
        decreases games@.len() - i,
    {
        let g = &games[i];
        out.push(
            Named {
                platform: text::owned(&g.platform_slug),
                name: text::owned(&g.name),
                file: text::owned(&g.fs_name),
                id: i as i64 + 1,
            },
        );
        i += 1;
    }
    assert(collections::rows(out@) =~= numbered(games@));
    out
}

// ---------------------------------------------------------------------------
// Firmware
// ---------------------------------------------------------------------------

/// A firmware file.
#[derive(Debug)]
pub struct Firmware {
    pub id: i64,
    pub file_name: String,
    pub file_size_bytes: i64,
    pub md5_hash: Option<String>,
    pub sha1_hash: Option<String>,
    /// Where it sits under the firmware root. Reported so that a duplicate name is
    /// explicable, not so that it can be recreated.
    pub file_path: Option<String>,
    /// True only when a hash was actually computed.
    pub is_verified: bool,
    pub abs: String,
}

/// A firmware file, as a value.
pub struct Held {
    pub id: i64,
    pub file_name: Seq<char>,
    pub file_size_bytes: i64,
    pub md5_hash: Option<Seq<char>>,
    pub sha1_hash: Option<Seq<char>>,
    pub file_path: Option<Seq<char>>,
    pub is_verified: bool,
    pub abs: Seq<char>,
}

impl View for Firmware {
    type V = Held;

    open spec fn view(&self) -> Held {
        Held {
            id: self.id,
            file_name: self.file_name@,
            file_size_bytes: self.file_size_bytes,
            md5_hash: text::opt(self.md5_hash),
            sha1_hash: text::opt(self.sha1_hash),
            file_path: text::opt(self.file_path),
            is_verified: self.is_verified,
            abs: self.abs@,
        }
    }
}

/// A file below the firmware root, and its bytes where it could be read.
#[derive(Debug)]
pub struct FoundFile {
    pub path: String,
    pub bytes: Option<Vec<u8>>,
}

/// The folder below a root that a path's file is in, where it is not the root
/// itself.
pub open spec fn sub_path(root: Seq<char>, path: Seq<char>) -> Option<Seq<char>> {
    let c = paths::components(path);
    let r = paths::components(root);
    if r.is_prefix_of(c) && r.len() + 1 < c.len() {
        Some(text::join(c.subrange(r.len() as int, c.len() - 1), "/"@))
    } else {
        None
    }
}

/// The firmware that a file is: none where it has no name, is hidden, or could not
/// be read.
pub open spec fn firmware_in(root: Seq<char>, f: FoundFile) -> Option<Held> {
    match (paths::name(f.path@), f.bytes) {
        (Some(name), Some(bytes)) => if text::starts(name, "."@) {
            None
        } else {
            Some(
                Held {
                    id: save_store::id_of(0, f.path@),
                    file_name: name,
                    file_size_bytes: bytes@.len() as i64,
                    md5_hash: Some(crypto::hex_text(crypto::md5_of(bytes@))),
                    sha1_hash: Some(crypto::hex_text(crypto::sha1_of(bytes@))),
                    file_path: sub_path(root, f.path@),
                    is_verified: true,
                    abs: f.path@,
                },
            )
        },
        _ => None,
    }
}

/// Whether one folder comes before another; none comes first.
pub open spec fn folder_less(a: Option<Seq<char>>, b: Option<Seq<char>>) -> bool {
    match (a, b) {
        (None, Some(_)) => true,
        (Some(x), Some(y)) => order::less(x, y),
        _ => false,
    }
}

/// Whether a file stands before another: by folder, then by name.
pub open spec fn ahead(a: Held, b: Held) -> bool {
    folder_less(a.file_path, b.file_path) || (a.file_path == b.file_path && order::less(a.file_name, b.file_name))
}

/// Files in order with one more put in behind those it does not stand before.
pub open spec fn put_in(fs: Seq<Held>, f: Held) -> Seq<Held>
    decreases fs.len(),
{
    if fs.len() > 0 && ahead(f, fs.last()) {
        put_in(fs.drop_last(), f).push(fs.last())
    } else {
        fs.push(f)
    }
}

/// The firmware among some files, in order.
pub open spec fn all_firmware(root: Seq<char>, found: Seq<FoundFile>) -> Seq<Held>
    decreases found.len(),
{
    if found.len() == 0 {
        Seq::empty()
    } else {
        let before = all_firmware(root, found.drop_last());
        match firmware_in(root, found.last()) {
            Some(f) => put_in(before, f),
            None => before,
        }
    }
}

proof fn lemma_folders(a: Option<Seq<char>>, b: Option<Seq<char>>, c: Option<Seq<char>>)
    ensures
        !folder_less(a, a),
        folder_less(a, b) ==> !folder_less(b, a),
        folder_less(a, b) && folder_less(b, c) ==> folder_less(a, c),
        a == b || folder_less(a, b) || folder_less(b, a),
{
    if let Some(x) = a {
        order::lemma_irreflexive(x);
        if let Some(y) = b {
            order::lemma_total(x, y);
            if order::less(x, y) && order::less(y, x) {
                order::lemma_transitive(x, y, x);
            }
            if let Some(z) = c {
                if order::less(x, y) && order::less(y, z) {
                    order::lemma_transitive(x, y, z);
                }
            }
        }
    }
}

/// What does not stand before a file, and has another that does not stand before it,
/// has both behind it.
proof fn lemma_ahead(a: Held, b: Held, c: Held)
    ensures
        ahead(a, b) ==> !ahead(b, a),
        !ahead(a, b) && !ahead(b, c) ==> !ahead(a, c),
{
    let (x, y, z) = (a.file_path, b.file_path, c.file_path);
    let (m, n, o) = (a.file_name, b.file_name, c.file_name);
    lemma_folders(x, y, z);
    lemma_folders(x, z, y);
    lemma_folders(y, x, z);
    lemma_folders(y, z, x);
    lemma_folders(z, y, x);
    lemma_folders(z, x, y);
    order::lemma_total(m, n);
    order::lemma_total(n, o);
    order::lemma_irreflexive(m);
    if order::less(m, n) && order::less(n, m) {
        order::lemma_transitive(m, n, m);
    }
    if order::less(m, o) && order::less(o, n) {
        order::lemma_transitive(m, o, n);
    }
    if order::less(n, m) && order::less(m, o) {
        order::lemma_transitive(n, m, o);
    }
}

/// No file stands before one that comes earlier.
pub open spec fn in_turn(fs: Seq<Held>) -> bool {
    forall|i: int, j: int| 0 <= i < j < fs.len() ==> !ahead(#[trigger] fs[j], #[trigger] fs[i])
}

proof fn lemma_put_in_turn(fs: Seq<Held>, f: Held)
    requires
        in_turn(fs),
    ensures
        in_turn(put_in(fs, f)),
        put_in(fs, f).to_multiset() == fs.to_multiset().insert(f),
    decreases fs.len(),
{
    broadcast use vstd::seq_lib::group_to_multiset_ensures;

    let r = put_in(fs, f);
    if fs.len() > 0 && ahead(f, fs.last()) {
        let front = fs.drop_last();
        assert forall|i: int, j: int| 0 <= i < j < front.len() implies !ahead(
            #[trigger] front[j],
            #[trigger] front[i],
        ) by {
            assert(!ahead(fs[j], fs[i]));
        }
        lemma_put_in_turn(front, f);
        let p = put_in(front, f);
        assert forall|i: int, j: int| 0 <= i < j < r.len() implies !ahead(#[trigger] r[j], #[trigger] r[i]) by {
            if j == p.len() {
                assert(p.to_multiset().contains(p[i]));
                if p[i] != f {
                    assert(front.to_multiset().contains(p[i]));
                    let k = choose|k: int| 0 <= k < front.len() && front[k] == p[i];
                    assert(!ahead(fs[fs.len() - 1], fs[k]));
                } else {
                    lemma_ahead(f, fs.last(), f);
                }
            } else {
                assert(!ahead(p[j], p[i]));
            }
        }
        assert(fs =~= front.push(fs.last()));
        assert(r.to_multiset() =~= fs.to_multiset().insert(f));
    } else {
        assert forall|i: int, j: int| 0 <= i < j < r.len() implies !ahead(#[trigger] r[j], #[trigger] r[i]) by {
            if j == fs.len() {
                if i < fs.len() - 1 {
                    assert(!ahead(fs[fs.len() - 1], fs[i]));
                }
                lemma_ahead(f, fs.last(), fs[i]);
            } else {
                assert(!ahead(fs[j], fs[i]));
            }
        }
    }
}

/// The firmware is listed by folder, then by name, and nothing of it is lost or
/// there twice.
pub proof fn law_firmware_is_listed_in_turn(root: Seq<char>, found: Seq<FoundFile>)
    ensures
        in_turn(all_firmware(root, found)),
        all_firmware(root, found).to_multiset() == firmware_among(root, found).to_multiset(),
    decreases found.len(),
{
    broadcast use vstd::seq_lib::group_to_multiset_ensures;

    if found.len() > 0 {
        let front = found.drop_last();
        law_firmware_is_listed_in_turn(root, front);
        if let Some(f) = firmware_in(root, found.last()) {
            lemma_put_in_turn(all_firmware(root, front), f);
        }
    }
}

/// The firmware among some files, as it was found.
pub open spec fn firmware_among(root: Seq<char>, found: Seq<FoundFile>) -> Seq<Held>
    decreases found.len(),
{
    if found.len() == 0 {
        Seq::empty()
    } else {
        let before = firmware_among(root, found.drop_last());
        match firmware_in(root, found.last()) {
            Some(f) => before.push(f),
            None => before,
        }
    }
}

/// The files, as values.
pub open spec fn helds(v: Seq<Firmware>) -> Seq<Held> {
    v.map_values(|f: Firmware| f@)
}

fn sub_path_of(root: &str, path: &str) -> (r: Option<String>)
    ensures
        text::opt(r) == sub_path(root@, path@),
{
    let c = paths::components_of(path);
    let d = paths::components_of(root);
    assert(text::texts(c@).len() == c@.len());
    assert(text::texts(d@).len() == d@.len());
    if !paths::is_under(path, root) {
        return None;
    }
    let n: usize = c.len();
    let k: usize = d.len();
    if n < 2 || k >= n - 1 {
        return None;
    }
    let some = text::copied(&c, k, n - 1);
    Some(text::joined(&some, "/"))
}

fn same_folder(a: &Option<String>, b: &Option<String>) -> (r: bool)
    ensures
        r == (text::opt(*a) == text::opt(*b)),
{
    text::same_option(a, b)
}

fn stands_ahead(a: &Firmware, b: &Firmware) -> (r: bool)
    ensures
        r == ahead(a@, b@),
{
    let first = match (&a.file_path, &b.file_path) {
        (None, Some(_)) => true,
        (Some(x), Some(y)) => order::is_less(x, y),
        _ => false,
    };
    first || (same_folder(&a.file_path, &b.file_path) && order::is_less(&a.file_name, &b.file_name))
}

proof fn lemma_put_in(fs: Seq<Held>, f: Held, i: int)
    requires
        0 <= i <= fs.len(),
        forall|k: int| i <= k < fs.len() ==> ahead(f, #[trigger] fs[k]),
        i > 0 ==> !ahead(f, fs[i - 1]),
    ensures
        put_in(fs, f) == fs.insert(i, f),
    decreases fs.len(),
{
    if i < fs.len() {
        let front = fs.drop_last();
        assert forall|k: int| i <= k < front.len() implies ahead(f, #[trigger] front[k]) by {
            assert(front[k] == fs[k]);
        }
        assert(ahead(f, fs[fs.len() - 1]));
        lemma_put_in(front, f, i);
        assert(front.insert(i, f).push(fs.last()) =~= fs.insert(i, f));
    } else {
        assert(fs.insert(i, f) =~= fs.push(f));
    }
}

fn put_firmware(fs: &mut Vec<Firmware>, f: Firmware)
    ensures
        helds(final(fs)@) == put_in(helds(old(fs)@), f@),
{
    let ghost before = helds(fs@);
    let ghost was = fs@;
    let mut i: usize = fs.len();
    while i > 0 && stands_ahead(&f, &fs[i - 1])
        invariant
            i <= fs@.len(),
            fs@ == was,
            before == helds(fs@),
            forall|k: int| i <= k < fs@.len() ==> ahead(f@, #[trigger] before[k]),
        decreases i,
    {
        i -= 1;
        assert(before[i as int] == fs@[i as int]@);
    }
    proof {
        if i > 0 {
            assert(before[i - 1] == fs@[i - 1]@);
        }
        lemma_put_in(before, f@, i as int);
    }
    let ghost seen = f@;
    fs.insert(i, f);
    assert(helds(fs@) =~= before.insert(i as int, seen));
}

/// The firmware below a root, as one flat list, with the hashes of each file.
///
/// Flat on purpose: one directory is where the emulators want every file, so the
/// sub-path is reported and not reproduced. A wrong file breaks emulation silently,
/// which is why the hashes travel with the listing.
pub fn scan_firmware(root: &str, found: &Vec<FoundFile>) -> (r: Vec<Firmware>)
    ensures
        helds(r@) == all_firmware(root@, found@),
{
    let mut out: Vec<Firmware> = Vec::new();
    let mut i: usize = 0;
    assert(helds(out@) =~= all_firmware(root@, found@.take(0)));
    while i < found.len()
        invariant
            i <= found@.len(),
            helds(out@) == all_firmware(root@, found@.take(i as int)),
        decreases found@.len() - i,
    {
        let f = &found[i];
        assert(found@.take(i + 1).drop_last() =~= found@.take(i as int));
        if let Some(name) = paths::file_name(&f.path) {
            if let Some(bytes) = &f.bytes {
                if !text::starts_with(&name, ".") {
                    let size: i64 = #[verifier::truncate] (bytes.len() as i64);
                    let one = Firmware {
                        id: save_store::save_id(0, &f.path),
                        file_name: name,
                        file_size_bytes: size,
                        md5_hash: Some(crypto::md5_hex(bytes)),
                        sha1_hash: Some(crypto::sha1_hex(bytes)),
                        file_path: sub_path_of(root, &f.path),
                        is_verified: true,
                        abs: text::owned(&f.path),
                    };
                    put_firmware(&mut out, one);
                }
            }
        }
        i += 1;
    }
    assert(found@.take(i as int) =~= found@);
    out
}

/// Where the firmware of an id is: the first of that id.
pub fn firmware_path(all: &Vec<Firmware>, id: i64) -> (r: Option<String>)
    ensures
        match r {
            Some(p) => exists|i: int|
                0 <= i < all@.len() && (#[trigger] all@[i]).id == id && p@ == all@[i].abs@ && forall|j: int|
                    0 <= j < i ==> (#[trigger] all@[j]).id != id,
            None => forall|j: int| 0 <= j < all@.len() ==> (#[trigger] all@[j]).id != id,
        },
{
    let mut i: usize = 0;
    while i < all.len()
        invariant
            i <= all@.len(),
            forall|j: int| 0 <= j < i ==> (#[trigger] all@[j]).id != id,
        decreases all@.len() - i,
    {
        if all[i].id == id {
            return Some(text::owned(&all[i].abs));
        }
        i += 1;
    }
    None
}

// ---------------------------------------------------------------------------
// The page for a person
// ---------------------------------------------------------------------------

/// The page for a person who typed the address into a browser.
pub const STATUS_PAGE: &'static str = r#"<!doctype html><meta charset=utf-8><title>Moose Rack</title>
<style>body{font:14px/1.5 system-ui;margin:3rem auto;max-width:40rem;padding:0 1rem}
td{padding:.1rem .8rem .1rem 0}code{background:#eee;padding:.1rem .3rem}</style>
<h1>Moose Rack</h1>
<p>Library service {v}. This is the API host; the app talks to it.</p>
<p><b>{games}</b> games &middot; <b>{plat}</b> platforms &middot; <b>{fw}</b> firmware files
&middot; <b>{cn}</b> collections ({cm} memberships) &middot; <b>{saves}</b> saves</p>
<table>{rows}</table>
<p>Point the app's <code>[server] url</code> here. Routes live under <code>/api/</code>:
<a href="/api/heartbeat">heartbeat</a>,
<a href="/api/platforms">platforms</a>,
<a href="/api/collections">collections</a>.</p>
"#;

/// The row of a platform.
pub open spec fn platform_row(slug: Seq<char>, n: nat) -> Seq<char> {
    "<tr><td>"@ + slug + "</td><td align=right>"@ + number::decimal(n) + "</td></tr>"@
}

/// The rows of some platforms.
pub open spec fn platform_rows(games: Seq<Game>, slugs: Seq<Seq<char>>) -> Seq<char>
    decreases slugs.len(),
{
    if slugs.len() == 0 {
        Seq::empty()
    } else {
        platform_rows(games, slugs.drop_last()) + platform_row(slugs.last(), games_of(games, slugs.last()))
    }
}

/// How many memberships some lists have.
pub open spec fn memberships(cs: Seq<collections::Collection>) -> int
    decreases cs.len(),
{
    if cs.len() == 0 {
        0
    } else {
        memberships(cs.drop_last()) + cs.last().rom_count
    }
}

/// The page, filled in.
pub open spec fn status(
    version: Seq<char>,
    games: Seq<Game>,
    firmware: nat,
    cs: Seq<collections::Collection>,
    saves: nat,
) -> Seq<char> {
    let slugs = slug_list(games);
    let a = text::replace(STATUS_PAGE@, "{v}"@, version);
    let b = text::replace(a, "{games}"@, number::decimal(games.len()));
    let c = text::replace(b, "{plat}"@, number::decimal(slugs.len()));
    let d = text::replace(c, "{fw}"@, number::decimal(firmware));
    let e = text::replace(d, "{cn}"@, number::decimal(cs.len()));
    let f = text::replace(e, "{cm}"@, number::int_text(memberships(cs)));
    let g = text::replace(f, "{saves}"@, number::decimal(saves));
    text::replace(g, "{rows}"@, platform_rows(games, slugs))
}

/// The page for a person who typed the address into a browser. Everything on it is
/// already public through the API; it is a signpost, not an interface.
pub fn index(
    version: &str,
    games: &Vec<Game>,
    firmware: usize,
    cs: &Vec<collections::Collection>,
    saves: usize,
) -> (r: String)
    requires
        forall|n: int| 0 <= n <= cs@.len() ==> i64::MIN <= #[trigger] memberships(cs@.take(n)) <= i64::MAX,
    ensures
        r@ == status(version@, games@, firmware as nat, cs@, saves as nat),
{
    let slugs = slugs_of(games);
    let ghost all = text::texts(slugs@);
    let mut rows: String = String::new();
    let mut i: usize = 0;
    assert(rows@ =~= platform_rows(games@, all.take(0)));
    while i < slugs.len()
        invariant
            all == text::texts(slugs@),
            i <= slugs@.len(),
            rows@ == platform_rows(games@, all.take(i as int)),
        decreases slugs@.len() - i,
    {
        let ghost before = rows@;
        proof {
            assert(all.take(i + 1).drop_last() =~= all.take(i as int));
            assert(all[i as int] == slugs@[i as int]@);
        }
        rows.append("<tr><td>");
        rows.append(&slugs[i]);
        rows.append("</td><td align=right>");
        let n = number::decimal_of(count_of(games, &slugs[i]) as u128);
        rows.append(&n);
        rows.append("</td></tr>");
        assert(rows@ =~= before + platform_row(all[i as int], games_of(games@, all[i as int])));
        i += 1;
    }
    assert(all.take(i as int) =~= all);
    let mut total: i64 = 0;
    let mut k: usize = 0;
    while k < cs.len()
        invariant
            forall|n: int| 0 <= n <= cs@.len() ==> i64::MIN <= #[trigger] memberships(cs@.take(n)) <= i64::MAX,
            k <= cs@.len(),
            total == memberships(cs@.take(k as int)),
        decreases cs@.len() - k,
    {
        proof {
            assert(cs@.take(k + 1).drop_last() =~= cs@.take(k as int));
            assert(i64::MIN <= memberships(cs@.take(k + 1)) <= i64::MAX);
        }
        total = total + cs[k].rom_count;
        k += 1;
    }
    assert(cs@.take(k as int) =~= cs@);
    proof {
        reveal_strlit("{v}");
        reveal_strlit("{games}");
        reveal_strlit("{plat}");
        reveal_strlit("{fw}");
        reveal_strlit("{cn}");
        reveal_strlit("{cm}");
        reveal_strlit("{saves}");
        reveal_strlit("{rows}");
    }
    let a = text::replaced(STATUS_PAGE, "{v}", version);
    let b = text::replaced(&a, "{games}", &number::decimal_of(games.len() as u128));
    let c = text::replaced(&b, "{plat}", &number::decimal_of(slugs.len() as u128));
    let d = text::replaced(&c, "{fw}", &number::decimal_of(firmware as u128));
    let e = text::replaced(&d, "{cn}", &number::decimal_of(cs.len() as u128));
    let f = text::replaced(&e, "{cm}", &number::text_of(total));
    let g = text::replaced(&f, "{saves}", &number::decimal_of(saves as u128));
    text::replaced(&g, "{rows}", &rows)
}

} // verus!
