//! What the API reports of the library: every game under its own path, every page
//! in its place, every platform and every firmware file once.

use vstd::prelude::*;
use crate::collections::Named;
use crate::crypto;
use crate::library;
use crate::library::{FileHashes, Firmware, FoundFile, Game, HashKey, Platform, Rom, RomPage};
use crate::order;
use crate::paths;
use crate::picks;
use crate::save_store;
use crate::table::Table;
use crate::text;

verus! {

/// Whether a report gives the hashes that the inventory holds at a path of a
/// system, and none where it holds none there.
pub open spec fn hashed_at(
    r: Rom,
    hashes: Map<(Seq<char>, Seq<char>), FileHashes>,
    system: Seq<char>,
    path: Seq<char>,
) -> bool {
    if hashes.contains_key((system, path)) {
        let h = hashes[(system, path)];
        &&& text::opt(r.md5_hash) == text::opt(h.md5)
        &&& text::opt(r.sha1_hash) == text::opt(h.sha1)
        &&& text::opt(r.crc_hash) == text::opt(h.crc)
    } else {
        r.md5_hash is None && r.sha1_hash is None && r.crc_hash is None
    }
}

/// Whether a report is that of a game: its hashes are looked up by the path inside
/// its system's folder, that is by its file's name at the top and below that by the
/// folder, a slash and the file's name.
pub open spec fn tells_of(r: Rom, g: Game, hashes: Map<(Seq<char>, Seq<char>), FileHashes>) -> bool {
    &&& g.rel_dir@.len() == 0 ==> hashed_at(r, hashes, g.system@, g.fs_name@)
    &&& g.rel_dir@.len() > 0 ==> hashed_at(r, hashes, g.system@, g.rel_dir@.push('/') + g.fs_name@)
    &&& r.name matches Some(n) && n@ == g.name@
    &&& r.fs_name@ == g.fs_name@
    &&& !r.missing_from_fs
    &&& r.fs_size_bytes == Some(g.size_bytes)
    &&& r.platform_fs_slug matches Some(p) && p@ == g.platform_slug@
    &&& text::opt(r.summary) == text::opt(g.summary)
}

proof fn lemma_report(r: Rom, i: int, g: Game, hashes: Map<(Seq<char>, Seq<char>), FileHashes>)
    requires
        library::is_rom(r, i, g, hashes),
    ensures
        r.id == i + 1,
        tells_of(r, g, hashes),
{
    reveal_strlit("/");
    assert("/"@ =~= seq!['/']);
    assert(g.rel_dir@ + "/"@ + g.fs_name@ =~= g.rel_dir@.push('/') + g.fs_name@);
    let path = library::rel_path(g);
    if hashes.contains_key((g.system@, path)) {
        let h = hashes[(g.system@, path)];
        assert(library::hash_texts(h) == (text::opt(h.md5), text::opt(h.sha1), text::opt(h.crc)));
    }
}

/// A game is reported by its place in the scan, counted from one, with the hashes
/// that the inventory has of the file at the game's own path.
pub proof fn law_a_game_has_the_hashes_at_its_path(
    i: usize,
    g: &Game,
    hashes: &Table<HashKey, FileHashes>,
    r: Rom,
)
    requires
        i < i64::MAX,
        call_ensures(library::to_rom, (i, g, hashes), r),
    ensures
        r.id == i + 1,
        tells_of(r, *g, hashes@),
{
    lemma_report(r, i as int, *g, hashes@);
}

/// Two games of one system and one file name, in different folders, have no hash in
/// common: what the inventory holds for the one is not reported of the other.
pub proof fn law_one_name_in_two_folders_is_two_files(
    i: usize,
    j: usize,
    g: &Game,
    other: &Game,
    hashes: &Table<HashKey, FileHashes>,
    r: Rom,
)
    requires
        j < i64::MAX,
        g.system@ == other.system@,
        g.fs_name@ == other.fs_name@,
        g.rel_dir@ != other.rel_dir@,
        forall|k: (Seq<char>, Seq<char>)| #[trigger]
            hashes@.contains_key(k) ==> k == (g.system@, library::rel_path(*g)),
        call_ensures(library::to_rom, (j, other, hashes), r),
    ensures
        r.md5_hash is None,
        r.sha1_hash is None,
        r.crc_hash is None,
{
    lemma_report(r, j as int, *other, hashes@);
    reveal_strlit("/");
    assert("/"@ =~= seq!['/']);
    let a = g.rel_dir@;
    let b = other.rel_dir@;
    let n = g.fs_name@;
    let p = library::rel_path(*g);
    assert(b.len() == 0 ==> p != n) by {
        if b.len() == 0 && p == n {
            assert(a.len() > 0) by {
                if a.len() == 0 {
                    assert(a =~= b);
                }
            }
            assert(p.len() == a.len() + 1 + n.len());
        }
    }
    assert(b.len() > 0 ==> p != b.push('/') + n) by {
        if b.len() > 0 && p == b.push('/') + n {
            if a.len() == 0 {
                assert(p == n);
                assert((b.push('/') + n).len() == b.len() + 1 + n.len());
            } else {
                assert(p == a + "/"@ + n);
                assert((a + "/"@ + n).len() == a.len() + 1 + n.len());
                assert((b.push('/') + n).len() == b.len() + 1 + n.len());
                assert(a.len() == b.len());
                assert forall|x: int| 0 <= x < a.len() implies a[x] == b[x] by {
                    assert((a + "/"@ + n)[x] == a[x]);
                    assert((b.push('/') + n)[x] == b[x]);
                }
                assert(a =~= b);
            }
        }
    }
}

/// A page holds the games that stand after so many others, in their order and
/// without a gap: as many as were asked for, or as there are. Asking for one of them
/// by its id reports the same game.
pub proof fn law_a_page_is_a_stretch_of_the_games(
    games: &Vec<Game>,
    hashes: &Table<HashKey, FileHashes>,
    limit: usize,
    offset: usize,
    r: RomPage,
)
    requires
        games@.len() <= i64::MAX,
        call_ensures(library::roms, (games, hashes, limit, offset), r),
    ensures
        r.total == games@.len(),
        r.items@.len() <= limit,
        r.items@.len() < limit ==> (offset >= games@.len() && r.items@.len() == 0) || offset + r.items@.len()
            == games@.len(),
        offset + r.items@.len() <= games@.len() || r.items@.len() == 0,
        forall|k: int|
            0 <= k < r.items@.len() ==> (#[trigger] r.items@[k]).id == offset + k + 1 && tells_of(
                r.items@[k],
                games@[offset + k],
                hashes@,
            ),
{
    assert forall|k: int| 0 <= k < r.items@.len() implies (#[trigger] r.items@[k]).id == offset + k + 1
        && tells_of(r.items@[k], games@[offset + k], hashes@) by {
        lemma_report(r.items@[k], offset + k, games@[offset + k], hashes@);
    }
}

/// A game is found by the id it is listed under, and by no other number.
pub proof fn law_an_id_finds_its_game(
    games: &Vec<Game>,
    hashes: &Table<HashKey, FileHashes>,
    id: i64,
    r: Option<Rom>,
)
    requires
        call_ensures(library::rom_by_id, (games, hashes, id), r),
    ensures
        r is Some <==> 1 <= id <= games@.len(),
        r matches Some(rom) ==> rom.id == id && tells_of(rom, games@[id - 1], hashes@),
{
    if let Some(rom) = r {
        lemma_report(rom, id - 1, games@[id - 1], hashes@);
    }
}

/// The ids are one for each game, from one up, in order.
pub proof fn law_the_ids_count_the_games(n: usize, r: Vec<i64>)
    requires
        n <= i64::MAX,
        call_ensures(library::rom_identifiers, (n,), r),
    ensures
        r@.len() == n,
        forall|i: int| 0 <= i < n ==> #[trigger] r@[i] == i + 1,
{
}

/// Whether a game is of a platform.
pub open spec fn of_platform(slug: Seq<char>) -> spec_fn(Game) -> bool {
    |g: Game| g.platform_slug@ == slug
}

proof fn lemma_games_of(games: Seq<Game>, slug: Seq<char>)
    ensures
        library::games_of(games, slug) == games.filter(of_platform(slug)).len(),
    decreases games.len(),
{
    reveal(Seq::filter);
    if games.len() > 0 {
        lemma_games_of(games.drop_last(), slug);
    }
}

proof fn lemma_first_system(games: Seq<Game>, slug: Seq<char>, i: int)
    requires
        0 <= i < games.len(),
        games[i].platform_slug@ == slug,
        forall|j: int| 0 <= j < i ==> (#[trigger] games[j]).platform_slug@ != slug,
    ensures
        library::first_system(games, slug) == Some(games[i].system@),
    decreases i,
{
    if i > 0 {
        let rest = games.skip(1);
        assert(games[0].platform_slug@ != slug);
        assert forall|j: int| 0 <= j < i - 1 implies (#[trigger] rest[j]).platform_slug@ != slug by {
            assert(rest[j] == games[j + 1]);
        }
        assert(rest[i - 1] == games[i]);
        lemma_first_system(rest, slug, i - 1);
    }
}

/// There is one platform for each slug that some game has, in the order of the
/// slugs and numbered from one. It counts the games of its slug, and goes by the
/// system of the first of them.
pub proof fn law_every_platform_is_listed_once(games: &Vec<Game>, r: Vec<Platform>)
    requires
        games@.len() <= i64::MAX,
        call_ensures(library::platforms, (games,), r),
    ensures
        forall|i: int, j: int|
            0 <= i < j < r@.len() ==> order::less((#[trigger] r@[i]).slug@, (#[trigger] r@[j]).slug@),
        forall|k: int|
            0 <= k < games@.len() ==> exists|i: int|
                0 <= i < r@.len() && (#[trigger] r@[i]).slug@ == (#[trigger] games@[k]).platform_slug@,
        forall|i: int|
            0 <= i < r@.len() ==> {
                let p = #[trigger] r@[i];
                &&& p.id == i + 1
                &&& p.fs_slug@ == p.slug@
                &&& p.rom_count == games@.filter(of_platform(p.slug@)).len()
                &&& p.rom_count > 0
                &&& p.name is Some
                &&& forall|k: int|
                    0 <= k < games@.len() && games@[k].platform_slug@ == p.slug@ && (forall|l: int|
                        0 <= l < k ==> (#[trigger] games@[l]).platform_slug@ != p.slug@) ==> p.name.unwrap()@
                        == (#[trigger] games@[k]).system@
            },
{
    let gs = games@;
    let list = library::slug_list(gs);
    let all = library::slugs(gs);
    order::lemma_sorted(all);
    assert forall|k: int| 0 <= k < gs.len() implies exists|i: int|
        0 <= i < r@.len() && (#[trigger] r@[i]).slug@ == (#[trigger] gs[k]).platform_slug@ by {
        assert(all[k] == gs[k].platform_slug@);
        assert(all.to_set().contains(all[k]));
        assert(list.to_set().contains(all[k]));
        let i = list.index_of(all[k]);
        assert(r@[i].slug@ == list[i]);
    }
    assert forall|i: int| 0 <= i < r@.len() implies {
        let p = #[trigger] r@[i];
        &&& p.id == i + 1
        &&& p.fs_slug@ == p.slug@
        &&& p.rom_count == gs.filter(of_platform(p.slug@)).len()
        &&& p.rom_count > 0
        &&& p.name is Some
        &&& forall|k: int|
            0 <= k < gs.len() && gs[k].platform_slug@ == p.slug@ && (forall|l: int|
                0 <= l < k ==> (#[trigger] gs[l]).platform_slug@ != p.slug@) ==> p.name.unwrap()@ == (
            #[trigger] gs[k]).system@
    } by {
        let p = r@[i];
        let slug = list[i];
        lemma_games_of(gs, slug);
        assert(list.to_set().contains(slug));
        assert(all.to_set().contains(slug));
        let k = all.index_of(slug);
        assert(gs[k].platform_slug@ == slug);
        let at = picks::lemma_filter_places(gs, of_platform(slug));
        assert(of_platform(slug)(gs[k]));
        assert(at.contains(k));
        let first = at[0];
        assert(of_platform(slug)(gs[first]));
        assert forall|l: int| 0 <= l < first implies (#[trigger] gs[l]).platform_slug@ != slug by {
            if gs[l].platform_slug@ == slug {
                assert(of_platform(slug)(gs[l]));
                let x = at.index_of(l);
                assert(at[x] == l);
                if x > 0 {
                    assert(at[0] < at[x]);
                }
            }
        }
        lemma_first_system(gs, slug, first);
        assert forall|k: int|
            0 <= k < gs.len() && gs[k].platform_slug@ == p.slug@ && (forall|l: int|
                0 <= l < k ==> (#[trigger] gs[l]).platform_slug@ != p.slug@) implies p.name.unwrap()@ == (
        #[trigger] gs[k]).system@ by {
            lemma_first_system(gs, slug, k);
        }
    }
}

/// Whether a file is firmware: it has a name that does not begin with a dot, and
/// its bytes could be read.
pub open spec fn is_firmware() -> spec_fn(FoundFile) -> bool {
    |f: FoundFile|
        f.bytes is Some && paths::name(f.path@) is Some && !text::starts(paths::name(f.path@).unwrap(), "."@)
}

/// Whether an entry is about a firmware file.
pub open spec fn describes(h: Firmware, root: Seq<char>, f: FoundFile) -> bool {
    let c = paths::components(f.path@);
    let above = paths::components(root);
    let bytes = f.bytes.unwrap()@;
    &&& h.id == save_store::id_of(0, f.path@)
    &&& h.file_name@ == paths::name(f.path@).unwrap()
    &&& bytes.len() <= i64::MAX ==> h.file_size_bytes == bytes.len()
    &&& h.md5_hash matches Some(m) && m@ == crypto::hex_text(crypto::md5_of(bytes))
    &&& h.sha1_hash matches Some(m) && m@ == crypto::hex_text(crypto::sha1_of(bytes))
    &&& h.is_verified
    &&& h.abs@ == f.path@
    &&& paths::under(f.path@, root) && c.len() > above.len() + 1 ==> (h.file_path matches Some(p) && p@
        == text::join(c.subrange(above.len() as int, c.len() - 1), "/"@))
    &&& !(paths::under(f.path@, root) && c.len() > above.len() + 1) ==> h.file_path is None
}

/// Whether an entry is about some firmware file among those that were found.
pub open spec fn listed_from(h: Firmware, root: Seq<char>, found: Seq<FoundFile>) -> bool {
    exists|j: int| 0 <= j < found.len() && is_firmware()(found[j]) && describes(h, root, #[trigger] found[j])
}

proof fn lemma_among(root: Seq<char>, found: Seq<FoundFile>)
    ensures
        library::firmware_among(root, found).len() == found.filter(is_firmware()).len(),
        forall|k: int|
            0 <= k < found.filter(is_firmware()).len() ==> library::firmware_in(
                root,
                #[trigger] found.filter(is_firmware())[k],
            ) == Some(library::firmware_among(root, found)[k]),
    decreases found.len(),
{
    reveal(Seq::filter);
    if found.len() > 0 {
        lemma_among(root, found.drop_last());
    }
}

/// Whether a file comes before another: one without a folder before one with, then
/// by folder, and in one folder by name.
pub open spec fn comes_before(a: Firmware, b: Firmware) -> bool {
    match (a.file_path, b.file_path) {
        (None, None) => order::less(a.file_name@, b.file_name@),
        (None, Some(_)) => true,
        (Some(_), None) => false,
        (Some(x), Some(y)) => order::less(x@, y@) || (x@ == y@ && order::less(a.file_name@, b.file_name@)),
    }
}

/// Every firmware file is listed once, and nothing else is; by folder and then by
/// name.
pub proof fn law_every_firmware_file_is_listed_once(root: &str, found: &Vec<FoundFile>, r: Vec<Firmware>)
    requires
        call_ensures(library::scan_firmware, (root, found), r),
    ensures
        r@.len() == found@.filter(is_firmware()).len(),
        forall|k: int| 0 <= k < r@.len() ==> listed_from(#[trigger] r@[k], root@, found@),
        forall|j: int|
            0 <= j < found@.len() && is_firmware()(#[trigger] found@[j]) ==> exists|k: int|
                0 <= k < r@.len() && describes(#[trigger] r@[k], root@, found@[j]),
        forall|i: int, j: int|
            0 <= i < j < r@.len() ==> !comes_before(#[trigger] r@[j], #[trigger] r@[i]),
{
    broadcast use vstd::seq_lib::group_to_multiset_ensures;

    let fs = found@;
    let all = library::firmware_among(root@, fs);
    let out = library::helds(r@);
    lemma_among(root@, fs);
    library::law_firmware_is_listed_in_turn(root@, fs);
    assert(out.to_multiset() == all.to_multiset());
    assert forall|i: int, j: int| 0 <= i < j < r@.len() implies !comes_before(
        #[trigger] r@[j],
        #[trigger] r@[i],
    ) by {
        assert(out[i] == r@[i]@ && out[j] == r@[j]@);
        assert(!library::ahead(out[j], out[i]));
    }
    assert(out.to_multiset().len() == out.len() && all.to_multiset().len() == all.len());
    assert(out.len() == all.len());
    let at = picks::lemma_filter_places(fs, is_firmware());
    assert forall|k: int| 0 <= k < r@.len() implies listed_from(#[trigger] r@[k], root@, fs) by {
        assert(out[k] == r@[k]@);
        assert(out.contains(out[k]));
        assert(out.to_multiset().count(out[k]) > 0);
        assert(all.contains(out[k]));
        let n = all.index_of(out[k]);
        assert(fs.filter(is_firmware())[n] == fs[at[n]]);
        assert(library::firmware_in(root@, fs[at[n]]) == Some(r@[k]@));
        assert(describes(r@[k], root@, fs[at[n]]));
    }
    assert forall|j: int| 0 <= j < fs.len() && is_firmware()(#[trigger] fs[j]) implies exists|k: int|
        0 <= k < r@.len() && describes(#[trigger] r@[k], root@, fs[j]) by {
        let n = at.index_of(j);
        assert(at[n] == j);
        assert(fs.filter(is_firmware())[n] == fs[at[n]]);
        assert(all.contains(all[n]));
        assert(all.to_multiset().count(all[n]) > 0);
        assert(out.contains(all[n]));
        let k = out.index_of(all[n]);
        assert(out[k] == r@[k]@);
        assert(library::firmware_in(root@, fs[j]) == Some(r@[k]@));
        assert(describes(r@[k], root@, fs[j]));
    }
}

/// What names are resolved against is every game under its own number.
pub proof fn law_every_game_can_be_named(games: &Vec<Game>, r: Vec<Named>)
    requires
        games@.len() <= i64::MAX,
        call_ensures(library::named, (games,), r),
    ensures
        r@.len() == games@.len(),
        forall|i: int|
            0 <= i < games@.len() ==> {
                let n = #[trigger] r@[i];
                &&& n.platform@ == games@[i].platform_slug@
                &&& n.name@ == games@[i].name@
                &&& n.file@ == games@[i].fs_name@
                &&& n.id == i + 1
            },
{
    let want = library::numbered(games@);
    assert(crate::collections::rows(r@).len() == want.len());
    assert forall|i: int| 0 <= i < games@.len() implies {
        let n = #[trigger] r@[i];
        &&& n.platform@ == games@[i].platform_slug@
        &&& n.name@ == games@[i].name@
        &&& n.file@ == games@[i].fs_name@
        &&& n.id == i + 1
    } by {
        assert(crate::collections::rows(r@)[i] == r@[i]@);
        assert(want[i] == r@[i]@);
    }
}

/// A file's name without its extension is what stands before its last dot, unless
/// that dot is the first character or there is none.
pub proof fn law_a_stem_ends_before_the_last_dot(n: Seq<char>, e: Seq<char>)
    requires
        !e.contains('.'),
    ensures
        n.len() > 0 ==> library::file_stem(n + seq!['.'] + e) == n,
        library::file_stem(seq!['.'] + e) == seq!['.'] + e,
        library::file_stem(e) == e,
{
    let t = n + seq!['.'] + e;
    text::lemma_rfind(t, '.', t.len() as int);
    assert(t[n.len() as int] == '.');
    assert forall|j: int| n.len() < j < t.len() implies t[j] != '.' by {
        assert(t[j] == e[j - n.len() - 1]);
        assert(e.contains(e[j - n.len() - 1]));
    }
    assert(t.take(n.len() as int) =~= n);
    let d = seq!['.'] + e;
    text::lemma_rfind(d, '.', d.len() as int);
    assert(d[0] == '.');
    assert forall|j: int| 0 < j < d.len() implies d[j] != '.' by {
        assert(d[j] == e[j - 1]);
        assert(e.contains(e[j - 1]));
    }
    text::lemma_rfind(e, '.', e.len() as int);
    if let Some(i) = text::rfind_before(e, '.', e.len() as int) {
        assert(e.contains(e[i]));
    }
}

} // verus!
