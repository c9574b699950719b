//! Which games of an index are on the card, where they are, and how they are found
//! again by number, by folder and by file.

use std::collections::BTreeSet;
use vstd::prelude::*;
use crate::favmap;
use crate::favmap::{FileKey, Known, Listed, OnCard, Platform, Rom};
use crate::order;
use crate::picks;
use crate::table::Table;
use crate::text;

verus! {

// ---------------------------------------------------------------------------
// Folders
// ---------------------------------------------------------------------------

/// Whether a slug's folder is named by an entry, and by none before it.
pub open spec fn names_folder(folders: Seq<(String, String)>, slug: Seq<char>, i: int) -> bool {
    &&& 0 <= i < folders.len()
    &&& folders[i].0@ == slug
    &&& forall|j: int| 0 <= j < i ==> (#[trigger] folders[j]).0@ != slug
}

proof fn lemma_folder_for(folders: Seq<(String, String)>, slug: Seq<char>)
    ensures
        forall|i: int| #[trigger]
            names_folder(folders, slug, i) ==> favmap::folder_for(folders, slug) == folders[i].1@,
        (forall|j: int| 0 <= j < folders.len() ==> (#[trigger] folders[j]).0@ != slug) ==> favmap::folder_for(
            folders,
            slug,
        ) == slug,
    decreases folders.len(),
{
    if folders.len() > 0 && folders[0].0@ != slug {
        let rest = folders.skip(1);
        lemma_folder_for(rest, slug);
        assert forall|j: int| 0 <= j < rest.len() implies #[trigger] rest[j] == folders[j + 1] by {}
        assert forall|i: int| #[trigger] names_folder(folders, slug, i) implies favmap::folder_for(folders, slug)
            == folders[i].1@ by {
            assert forall|j: int| 0 <= j < i - 1 implies (#[trigger] rest[j]).0@ != slug by {
                assert(folders[j + 1].0@ != slug);
            }
            assert(names_folder(rest, slug, i - 1));
        }
        if forall|j: int| 0 <= j < folders.len() ==> (#[trigger] folders[j]).0@ != slug {
            assert forall|j: int| 0 <= j < rest.len() implies (#[trigger] rest[j]).0@ != slug by {
                assert(folders[j + 1].0@ != slug);
            }
        }
    } else if folders.len() > 0 {
        assert forall|i: int| #[trigger] names_folder(folders, slug, i) implies i == 0 by {
            if i > 0 {
                assert(folders[0].0@ != slug);
            }
        }
    }
}

/// A system is kept in the folder that the first entry for it names, or, where there
/// is none, in the folder called like it.
pub proof fn law_a_system_has_the_folder_first_named(platform: &Platform, slug: &str, r: String)
    requires
        call_ensures(Platform::save_folder, (platform, slug), r),
    ensures
        forall|i: int| #[trigger] names_folder(platform.folders@, slug@, i) ==> r@ == platform.folders@[i].1@,
        (forall|j: int| 0 <= j < platform.folders@.len() ==> (#[trigger] platform.folders@[j]).0@ != slug@)
            ==> r@ == slug@,
{
    lemma_folder_for(platform.folders@, slug@);
}

/// A path with slashes of one kind.
pub open spec fn one_slash(t: Seq<char>) -> Seq<char> {
    t.map_values(
        |c: char|
            if c == '\\' {
                '/'
            } else {
                c
            },
    )
}

/// Whether a piece of a path leads out of where it stands.
pub open spec fn leads_out(piece: Seq<char>) -> bool {
    piece == "."@ || piece == ".."@ || piece.contains(':')
}

/// Whether a piece of a path says something.
pub open spec fn said() -> spec_fn(Seq<char>) -> bool {
    |piece: Seq<char>| piece.len() > 0
}

proof fn lemma_nonempty(pieces: Seq<Seq<char>>)
    ensures
        favmap::nonempty(pieces) == pieces.filter(said()),
    decreases pieces.len(),
{
    reveal(Seq::filter);
    if pieces.len() > 0 {
        lemma_nonempty(pieces.drop_last());
    }
}

proof fn lemma_plain_dir(rel_dir: Seq<char>)
    ensures
        ({
            let pieces = text::split(one_slash(rel_dir), '/');
            let bad = (rel_dir.len() > 0 && (rel_dir[0] == '/' || rel_dir[0] == '\\')) || exists|i: int|
                0 <= i < pieces.len() && leads_out(#[trigger] pieces[i]);
            favmap::plain_dir(rel_dir) == (if bad {
                None
            } else {
                Some(text::join(pieces.filter(said()), "/"@))
            })
        }),
{
    reveal_strlit(".");
    reveal_strlit("..");
    assert(favmap::slashed(rel_dir) =~= one_slash(rel_dir));
    let pieces = text::split(one_slash(rel_dir), '/');
    lemma_nonempty(pieces);
    let names = favmap::folder_names(rel_dir);
    let at = picks::lemma_filter_places(pieces, said());
    assert(names == pieces.filter(said()));
    assert forall|i: int| 0 <= i < pieces.len() && leads_out(#[trigger] pieces[i]) implies exists|k: int|
        0 <= k < names.len() && !favmap::plain(#[trigger] names[k]) by {
        assert(said()(pieces[i]));
        let k = at.index_of(i);
        assert(at[k] == i);
        assert(names[k] == pieces[i]);
        assert(!favmap::plain(names[k]));
    }
    assert forall|k: int| 0 <= k < names.len() && !favmap::plain(#[trigger] names[k]) implies leads_out(
        pieces[at[k]],
    ) by {
        assert(names[k] == pieces[at[k]]);
    }
}

/// A server's folder is refused just where it begins at a root or one of its pieces
/// leads out: a dot, two dots, or a piece with a colon. Otherwise it is its pieces
/// that say something, with one slash between them.
pub proof fn law_a_folder_that_leads_out_is_refused(rel_dir: &str, r: Option<String>)
    requires
        call_ensures(favmap::plain_rel_dir, (rel_dir,), r),
    ensures
        ({
            let pieces = text::split(one_slash(rel_dir@), '/');
            &&& r is None <==> (rel_dir@.len() > 0 && (rel_dir@[0] == '/' || rel_dir@[0] == '\\')) || exists|
                i: int,
            | 0 <= i < pieces.len() && leads_out(#[trigger] pieces[i])
            &&& r matches Some(d) ==> d@ == text::join(pieces.filter(said()), "/"@)
        }),
{
    lemma_plain_dir(rel_dir@);
}

// ---------------------------------------------------------------------------
// What is on the card
// ---------------------------------------------------------------------------

/// Whether a listing is the first of a folder.
pub open spec fn first_listing(listed: Seq<Listed>, folder: Seq<char>, dir: Seq<char>, i: int) -> bool {
    &&& 0 <= i < listed.len()
    &&& listed[i].folder@ == folder && listed[i].rel_dir@ == dir
    &&& forall|j: int|
        0 <= j < i ==> !((#[trigger] listed[j]).folder@ == folder && listed[j].rel_dir@ == dir)
}

/// Whether a listing has a name.
pub open spec fn lists_name(l: Listed, name: Seq<char>) -> bool {
    exists|i: int| 0 <= i < l.names@.len() && (#[trigger] l.names@[i])@ == name
}

/// Whether a game of an index is on the card under some file: in the folder of its
/// system, by its own name, or where that is not there as the playlist of its name.
pub open spec fn is_at(
    rom: Rom,
    folders: Seq<(String, String)>,
    listed: Seq<Listed>,
    folder: Seq<char>,
    dir: Seq<char>,
    file: Seq<char>,
) -> bool {
    let name = rom.fs_name@;
    &&& folder == favmap::folder_for(folders, rom.platform_slug@)
    &&& favmap::plain_dir(rom.rel_dir@) == Some(dir)
    &&& exists|i: int| #[trigger]
        first_listing(listed, folder, dir, i) && (if lists_name(listed[i], name) {
            file == name
        } else {
            lists_name(listed[i], name + ".m3u"@) && file == name + ".m3u"@
        })
}

proof fn lemma_names_at(listed: Seq<Listed>, folder: Seq<char>, dir: Seq<char>)
    ensures
        forall|i: int| #[trigger]
            first_listing(listed, folder, dir, i) ==> favmap::names_at(listed, folder, dir) == text::texts(
                listed[i].names@,
            ),
        (forall|i: int| !#[trigger] first_listing(listed, folder, dir, i)) ==> favmap::names_at(
            listed,
            folder,
            dir,
        ).len() == 0,
    decreases listed.len(),
{
    if listed.len() > 0 {
        let here = listed[0].folder@ == folder && listed[0].rel_dir@ == dir;
        if here {
            assert(first_listing(listed, folder, dir, 0));
            assert forall|i: int| #[trigger] first_listing(listed, folder, dir, i) implies i == 0 by {
                if i > 0 {
                    assert(!(listed[0].folder@ == folder && listed[0].rel_dir@ == dir));
                }
            }
        } else {
            let rest = listed.skip(1);
            lemma_names_at(rest, folder, dir);
            assert forall|j: int| 0 <= j < rest.len() implies #[trigger] rest[j] == listed[j + 1] by {}
            assert forall|i: int| #[trigger] first_listing(listed, folder, dir, i) implies first_listing(
                rest,
                folder,
                dir,
                i - 1,
            ) by {
                assert forall|j: int| 0 <= j < i - 1 implies !((#[trigger] rest[j]).folder@ == folder
                    && rest[j].rel_dir@ == dir) by {
                    assert(!(listed[j + 1].folder@ == folder && listed[j + 1].rel_dir@ == dir));
                }
            }
            assert forall|i: int| #[trigger] first_listing(rest, folder, dir, i) implies first_listing(
                listed,
                folder,
                dir,
                i + 1,
            ) by {
                assert forall|j: int| 0 <= j < i + 1 implies !((#[trigger] listed[j]).folder@ == folder
                    && listed[j].rel_dir@ == dir) by {
                    if j > 0 {
                        assert(rest[j - 1] == listed[j]);
                    }
                }
            }
        }
    }
}

proof fn lemma_lists_name(l: Listed, name: Seq<char>)
    ensures
        text::texts(l.names@).contains(name) == lists_name(l, name),
{
    let ts = text::texts(l.names@);
    if ts.contains(name) {
        let i = ts.index_of(name);
        assert(l.names@[i]@ == name);
    }
    if lists_name(l, name) {
        let i = choose|i: int| 0 <= i < l.names@.len() && (#[trigger] l.names@[i])@ == name;
        assert(ts[i] == name);
    }
}

proof fn lemma_found(rom: Rom, folders: Seq<(String, String)>, listed: Seq<Listed>)
    ensures
        favmap::found_on_card(rom, folders, listed) matches Some(k) ==> k.rom_id == rom.id && is_at(
            rom,
            folders,
            listed,
            k.folder,
            k.rel_dir,
            k.file,
        ),
        forall|folder: Seq<char>, dir: Seq<char>, file: Seq<char>| #[trigger]
            is_at(rom, folders, listed, folder, dir, file) ==> favmap::found_on_card(rom, folders, listed)
                == Some(OnCard { rom_id: rom.id, folder, rel_dir: dir, file }),
{
    let folder = favmap::folder_for(folders, rom.platform_slug@);
    let name = rom.fs_name@;
    if let Some(dir) = favmap::plain_dir(rom.rel_dir@) {
        lemma_names_at(listed, folder, dir);
        assert forall|i: int| #[trigger] first_listing(listed, folder, dir, i) implies favmap::named_on_card(
            favmap::names_at(listed, folder, dir),
            name,
        ) == (if lists_name(listed[i], name) {
            Some(name)
        } else if lists_name(listed[i], name + ".m3u"@) {
            Some(name + ".m3u"@)
        } else {
            None
        }) by {
            lemma_lists_name(listed[i], name);
            lemma_lists_name(listed[i], name + ".m3u"@);
        }
        if favmap::found_on_card(rom, folders, listed) is Some {
            assert(exists|i: int| #[trigger] first_listing(listed, folder, dir, i));
        }
    }
}

/// Whether a game of an index is on the card.
pub open spec fn is_here(folders: Seq<(String, String)>, listed: Seq<Listed>) -> spec_fn(Rom) -> bool {
    |rom: Rom|
        exists|folder: Seq<char>, dir: Seq<char>, file: Seq<char>| #[trigger]
            is_at(rom, folders, listed, folder, dir, file)
}

proof fn lemma_all_on_card(roms: Seq<Rom>, folders: Seq<(String, String)>, listed: Seq<Listed>)
    ensures
        favmap::all_on_card(roms, folders, listed).len() == roms.filter(is_here(folders, listed)).len(),
        forall|k: int|
            0 <= k < roms.filter(is_here(folders, listed)).len() ==> favmap::found_on_card(
                #[trigger] roms.filter(is_here(folders, listed))[k],
                folders,
                listed,
            ) == Some(favmap::all_on_card(roms, folders, listed)[k]),
    decreases roms.len(),
{
    reveal(Seq::filter);
    if roms.len() > 0 {
        lemma_all_on_card(roms.drop_last(), folders, listed);
        lemma_found(roms.last(), folders, listed);
        let found = favmap::found_on_card(roms.last(), folders, listed);
        if is_here(folders, listed)(roms.last()) {
            let (a, b, c) = choose|folder: Seq<char>, dir: Seq<char>, file: Seq<char>| #[trigger]
                is_at(roms.last(), folders, listed, folder, dir, file);
            assert(found is Some);
        } else if found is Some {
            let k = found.unwrap();
            assert(is_at(roms.last(), folders, listed, k.folder, k.rel_dir, k.file));
        }
    }
}

/// The games on the card are those of the index that are there, in the order of the
/// index, each under its number and at its own place.
pub proof fn law_the_games_on_the_card_are_those_that_are_there(
    roms: &Vec<Rom>,
    platform: &Platform,
    listed: &Vec<Listed>,
    r: Vec<Known>,
)
    requires
        call_ensures(favmap::on_card, (roms, platform, listed), r),
    ensures
        ({
            let here = roms@.filter(is_here(platform.folders@, listed@));
            &&& r@.len() == here.len()
            &&& forall|k: int|
                0 <= k < r@.len() ==> (#[trigger] r@[k]).rom_id == here[k].id && is_at(
                    here[k],
                    platform.folders@,
                    listed@,
                    r@[k].folder@,
                    r@[k].rel_dir@,
                    r@[k].file@,
                )
        }),
{
    let here = roms@.filter(is_here(platform.folders@, listed@));
    lemma_all_on_card(roms@, platform.folders@, listed@);
    assert(favmap::cards(r@).len() == r@.len());
    assert forall|k: int| 0 <= k < r@.len() implies (#[trigger] r@[k]).rom_id == here[k].id && is_at(
        here[k],
        platform.folders@,
        listed@,
        r@[k].folder@,
        r@[k].rel_dir@,
        r@[k].file@,
    ) by {
        assert(favmap::cards(r@)[k] == r@[k]@);
        lemma_found(here[k], platform.folders@, listed@);
    }
}

/// The folders to look into are those that some game of the index is to be looked
/// for in, each once.
pub proof fn law_every_folder_is_looked_into_once(roms: Seq<Rom>, folders: Seq<(String, String)>)
    ensures
        favmap::to_list(roms, folders).no_duplicates(),
        forall|f: Seq<char>, d: Seq<char>| #[trigger]
            favmap::to_list(roms, folders).contains((f, d)) <==> exists|i: int|
                0 <= i < roms.len() && f == favmap::folder_for(folders, (#[trigger] roms[i]).platform_slug@)
                    && favmap::plain_dir(roms[i].rel_dir@) == Some(d),
    decreases roms.len(),
{
    if roms.len() > 0 {
        let front = roms.drop_last();
        let n = roms.len() - 1;
        law_every_folder_is_looked_into_once(front, folders);
        let before = favmap::to_list(front, folders);
        let after = favmap::to_list(roms, folders);
        assert(roms[n] == roms.last());
        assert forall|f: Seq<char>, d: Seq<char>| #[trigger] after.contains((f, d)) <==> exists|i: int|
            0 <= i < roms.len() && f == favmap::folder_for(folders, (#[trigger] roms[i]).platform_slug@)
                && favmap::plain_dir(roms[i].rel_dir@) == Some(d) by {
            if after.contains((f, d)) {
                if before.contains((f, d)) {
                    let i = choose|i: int|
                        0 <= i < front.len() && f == favmap::folder_for(folders, (#[trigger] front[i]).platform_slug@)
                            && favmap::plain_dir(front[i].rel_dir@) == Some(d);
                    assert(roms[i] == front[i]);
                } else {
                    let x = after.index_of((f, d));
                    assert(after[x] == (f, d));
                    if x < before.len() {
                        assert(before[x] == (f, d));
                    }
                    assert(favmap::folder_of(roms[n], folders) == Some((f, d)));
                }
            }
            if exists|i: int|
                0 <= i < roms.len() && f == favmap::folder_for(folders, (#[trigger] roms[i]).platform_slug@)
                    && favmap::plain_dir(roms[i].rel_dir@) == Some(d) {
                let i = choose|i: int|
                    0 <= i < roms.len() && f == favmap::folder_for(folders, (#[trigger] roms[i]).platform_slug@)
                        && favmap::plain_dir(roms[i].rel_dir@) == Some(d);
                if i < n {
                    assert(front[i] == roms[i]);
                    assert(before.contains((f, d)));
                    let x = before.index_of((f, d));
                    assert(after[x] == (f, d));
                } else if !before.contains((f, d)) {
                    assert(after[after.len() - 1] == (f, d));
                }
            }
        }
    }
}

// ---------------------------------------------------------------------------
// Finding a game again
// ---------------------------------------------------------------------------

/// The path of a game inside its system's folder.
pub open spec fn path_in_folder(k: Known) -> Seq<char> {
    if k.rel_dir@.len() == 0 {
        k.file@
    } else {
        k.rel_dir@.push('/') + k.file@
    }
}

proof fn lemma_inside(k: Known)
    ensures
        favmap::inside(k@) == path_in_folder(k),
{
    reveal_strlit("/");
    assert("/"@ =~= seq!['/']);
    assert(k.rel_dir@ + "/"@ + k.file@ =~= k.rel_dir@.push('/') + k.file@);
}

/// Whether a game is the last of some at a file.
pub open spec fn last_at(known: Seq<Known>, folder: Seq<char>, path: Seq<char>, i: int) -> bool {
    &&& 0 <= i < known.len()
    &&& known[i].folder@ == folder && path_in_folder(known[i]) == path
    &&& forall|j: int|
        i < j < known.len() ==> !((#[trigger] known[j]).folder@ == folder && path_in_folder(known[j]) == path)
}

proof fn lemma_file_map(known: Seq<Known>, folder: Seq<char>, path: Seq<char>)
    ensures
        favmap::file_map(favmap::cards(known)).contains_key((folder, path)) <==> exists|i: int|
            0 <= i < known.len() && (#[trigger] known[i]).folder@ == folder && path_in_folder(known[i]) == path,
        forall|i: int| #[trigger]
            last_at(known, folder, path, i) ==> favmap::file_map(favmap::cards(known))[(folder, path)]
                == known[i].rom_id,
    decreases known.len(),
{
    if known.len() > 0 {
        let front = known.drop_last();
        let n = known.len() - 1;
        lemma_file_map(front, folder, path);
        lemma_inside(known[n]);
        assert(favmap::cards(known).drop_last() =~= favmap::cards(front));
        assert(favmap::cards(known).last() == known[n]@);
        let hit = known[n].folder@ == folder && path_in_folder(known[n]) == path;
        if favmap::file_map(favmap::cards(known)).contains_key((folder, path)) && !hit {
            let i = choose|i: int|
                0 <= i < front.len() && (#[trigger] front[i]).folder@ == folder && path_in_folder(front[i]) == path;
            assert(known[i] == front[i]);
        }
        if exists|i: int|
            0 <= i < known.len() && (#[trigger] known[i]).folder@ == folder && path_in_folder(known[i]) == path {
            let i = choose|i: int|
                0 <= i < known.len() && (#[trigger] known[i]).folder@ == folder && path_in_folder(known[i]) == path;
            if i < n {
                assert(front[i] == known[i]);
            }
        }
        assert forall|i: int| #[trigger] last_at(known, folder, path, i) implies favmap::file_map(
            favmap::cards(known),
        )[(folder, path)] == known[i].rom_id by {
            if i < n {
                assert(!hit);
                assert forall|j: int| i < j < front.len() implies !((#[trigger] front[j]).folder@ == folder
                    && path_in_folder(front[j]) == path) by {
                    assert(known[j] == front[j]);
                }
                assert(last_at(front, folder, path, i));
            }
        }
    }
}

/// A game is found by its folder and its path inside it, and by nothing else; of two
/// at one place the later is.
pub proof fn law_a_game_is_found_by_its_own_path(known: &Vec<Known>, r: Table<FileKey, i64>)
    requires
        call_ensures(favmap::by_file, (known,), r),
    ensures
        forall|folder: Seq<char>, path: Seq<char>| #[trigger]
            r@.contains_key((folder, path)) <==> exists|i: int|
                0 <= i < known@.len() && (#[trigger] known@[i]).folder@ == folder && path_in_folder(known@[i])
                    == path,
        forall|folder: Seq<char>, path: Seq<char>, i: int| #[trigger]
            last_at(known@, folder, path, i) ==> r@[(folder, path)] == known@[i].rom_id,
{
    assert forall|folder: Seq<char>, path: Seq<char>| #[trigger]
        r@.contains_key((folder, path)) <==> exists|i: int|
            0 <= i < known@.len() && (#[trigger] known@[i]).folder@ == folder && path_in_folder(known@[i])
                == path by {
        lemma_file_map(known@, folder, path);
    }
    assert forall|folder: Seq<char>, path: Seq<char>, i: int| #[trigger]
        last_at(known@, folder, path, i) implies r@[(folder, path)] == known@[i].rom_id by {
        lemma_file_map(known@, folder, path);
    }
}

/// The numbers are those of the games, and the folders those of the games, in order
/// and each once.
pub proof fn law_numbers_and_folders_are_those_of_the_games(
    known: &Vec<Known>,
    ids: BTreeSet<i64>,
    folders: Vec<String>,
)
    requires
        call_ensures(favmap::ids, (known,), ids),
        call_ensures(favmap::folders, (known,), folders),
    ensures
        forall|id: i64| #[trigger]
            ids@.contains(id) <==> exists|i: int| 0 <= i < known@.len() && (#[trigger] known@[i]).rom_id == id,
        forall|f: Seq<char>| #[trigger]
            text::texts(folders@).contains(f) <==> exists|i: int|
                0 <= i < known@.len() && (#[trigger] known@[i]).folder@ == f,
        forall|i: int, j: int|
            0 <= i < j < folders@.len() ==> order::less((#[trigger] folders@[i])@, (#[trigger] folders@[j])@),
{
    let cs = favmap::cards(known@);
    let fs = cs.map_values(|k: OnCard| k.folder);
    let ts = text::texts(folders@);
    assert forall|i: int| 0 <= i < known@.len() implies cs[i] == (#[trigger] known@[i])@ by {}
    assert forall|id: i64| #[trigger] ids@.contains(id) <==> exists|i: int|
        0 <= i < known@.len() && (#[trigger] known@[i]).rom_id == id by {
        if ids@.contains(id) {
            let i = choose|i: int| 0 <= i < cs.len() && (#[trigger] cs[i]).rom_id == id;
            assert(known@[i].rom_id == id);
        }
        if exists|i: int| 0 <= i < known@.len() && (#[trigger] known@[i]).rom_id == id {
            let i = choose|i: int| 0 <= i < known@.len() && (#[trigger] known@[i]).rom_id == id;
            assert(cs[i].rom_id == id);
        }
    }
    assert forall|f: Seq<char>| #[trigger] ts.contains(f) <==> exists|i: int|
        0 <= i < known@.len() && (#[trigger] known@[i]).folder@ == f by {
        assert(ts.to_set().contains(f) == fs.to_set().contains(f));
        if ts.contains(f) {
            let i = fs.index_of(f);
            assert(known@[i].folder@ == f);
        }
        if exists|i: int| 0 <= i < known@.len() && (#[trigger] known@[i]).folder@ == f {
            let i = choose|i: int| 0 <= i < known@.len() && (#[trigger] known@[i]).folder@ == f;
            assert(fs[i] == f);
        }
    }
    assert forall|i: int, j: int| 0 <= i < j < folders@.len() implies order::less(
        (#[trigger] folders@[i])@,
        (#[trigger] folders@[j])@,
    ) by {
        assert(ts[i] == folders@[i]@ && ts[j] == folders@[j]@);
    }
}

/// Whether a game is in a folder.
pub open spec fn in_this(folder: Seq<char>) -> spec_fn(OnCard) -> bool {
    |k: OnCard| k.folder == folder
}

proof fn lemma_in_folder(known: Seq<OnCard>, folder: Seq<char>)
    ensures
        favmap::in_folder(known, folder) == known.filter(in_this(folder)),
    decreases known.len(),
{
    reveal(Seq::filter);
    if known.len() > 0 {
        lemma_in_folder(known.drop_last(), folder);
    }
}

/// Whether some games by folder have a folder.
pub open spec fn has_folder(r: Seq<(String, Vec<Known>)>, f: Seq<char>) -> bool {
    exists|i: int| 0 <= i < r.len() && (#[trigger] r[i]).0@ == f
}

/// The games by folder: each folder has just its own games, in their order.
pub proof fn law_a_folder_has_just_its_own_games(known: &Vec<Known>, r: Vec<(String, Vec<Known>)>)
    requires
        call_ensures(favmap::by_folder, (known,), r),
    ensures
        forall|i: int|
            0 <= i < r@.len() ==> favmap::cards((#[trigger] r@[i]).1@) == favmap::cards(known@).filter(
                in_this(r@[i].0@),
            ),
        forall|k: int| 0 <= k < known@.len() ==> has_folder(r@, (#[trigger] known@[k]).folder@),
{
    let names = r@.map_values(|p: (String, Vec<Known>)| p.0@);
    let fs = favmap::cards(known@).map_values(|k: OnCard| k.folder);
    assert forall|i: int| 0 <= i < r@.len() implies favmap::cards((#[trigger] r@[i]).1@) == favmap::cards(
        known@,
    ).filter(in_this(r@[i].0@)) by {
        lemma_in_folder(favmap::cards(known@), r@[i].0@);
    }
    assert forall|k: int| 0 <= k < known@.len() implies has_folder(r@, (#[trigger] known@[k]).folder@) by {
        assert(fs[k] == known@[k].folder@);
        assert(fs.to_set().contains(fs[k]));
        assert(names.to_set().contains(fs[k]));
        let i = names.index_of(fs[k]);
        assert(r@[i].0@ == names[i]);
    }
}

} // verus!
