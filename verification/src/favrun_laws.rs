//! What a list of favourites holds on the card, and what a plan for the lists says
//! of each of them.

use std::collections::BTreeSet;
use vstd::prelude::*;
use crate::disk;
use crate::disk::{Disk, Seen};
use crate::eslist;
use crate::failure::Failure;
use crate::favmap;
use crate::favmap::{EsPaths, FileKey, Known, Platform};
use crate::favmap_laws;
use crate::favrun;
use crate::favrun::{Collection, Looked, Plan, Planned, Sides, Work};
use crate::favsync;
use crate::favsync::{Baseline, Move};
use crate::gamelist;
use crate::gamelist_laws;
use crate::lines;
use crate::order;
use crate::paths;
use crate::table::Table;
use crate::text;

verus! {

/// Whether what was found at a path is a text, or nothing at all.
pub open spec fn readable(s: Seen) -> bool {
    match s {
        Seen::Missing => true,
        Seen::Bytes(b) => vstd::utf8::valid_utf8(b),
        Seen::Unreadable { .. } => false,
    }
}

/// Where ES keeps the gamelist of a system folder.
pub open spec fn list_of(roms: Seq<char>, folder: Seq<char>) -> Seq<char> {
    paths::joined(paths::joined(roms, folder), "gamelist.xml"@)
}

/// Whether what was found at a path is a gamelist with a game of this file that is
/// a favourite.
pub open spec fn has_star(s: Seen, file: Seq<char>) -> bool {
    match s {
        Seen::Bytes(b) => vstd::utf8::valid_utf8(b) && {
            let gs = gamelist::games(vstd::utf8::decode_utf8(b));
            exists|i: int| 0 <= i < gs.len() && (#[trigger] gs[i]).file == file && gs[i].starred
        },
        _ => false,
    }
}

/// Whether a folder's gamelist has a star for a game.
pub open spec fn starred_in(
    disk: Disk,
    roms: Seq<char>,
    folder: Seq<char>,
    index: Map<(Seq<char>, Seq<char>), i64>,
    id: i64,
) -> bool {
    exists|f: Seq<char>| #[trigger]
        has_star(disk.at(list_of(roms, folder)), f) && index.contains_key((folder, f)) && index[(folder, f)]
            == id
}

/// The favourites of some games are the files of those that are starred.
proof fn lemma_has_star(b: Seq<u8>, f: Seq<char>)
    requires
        vstd::utf8::valid_utf8(b),
    ensures
        gamelist::favorite_files(gamelist::games(vstd::utf8::decode_utf8(b))).contains(f) == has_star(
            Seen::Bytes(b),
            f,
        ),
{
    let gs = gamelist::games(vstd::utf8::decode_utf8(b));
    gamelist_laws::lemma_favorites(gs, f);
    let want = gamelist_laws::Mark { file: f, starred: true };
    if has_star(Seen::Bytes(b), f) {
        let i = choose|i: int| 0 <= i < gs.len() && (#[trigger] gs[i]).file == f && gs[i].starred;
        assert(gamelist_laws::marks(gs)[i] == want);
    }
    if gamelist::favorite_files(gs).contains(f) {
        let i = choose|i: int| 0 <= i < gs.len() && #[trigger] gamelist_laws::marks(gs)[i] == want;
        assert(gs[i].file == f && gs[i].starred);
    }
}

proof fn lemma_stars_in(
    disk: Disk,
    roms: Seq<char>,
    folders: Seq<Seq<char>>,
    index: Map<(Seq<char>, Seq<char>), i64>,
)
    ensures
        favrun::stars_in(disk.all(), roms, folders, index) is Ok <==> forall|k: int|
            0 <= k < folders.len() ==> readable(disk.at(list_of(roms, #[trigger] folders[k]))),
        favrun::stars_in(disk.all(), roms, folders, index) matches Ok(ids) ==> forall|id: i64|
            ids.contains(id) <==> exists|k: int|
                0 <= k < folders.len() && starred_in(disk, roms, #[trigger] folders[k], index, id),
    decreases folders.len(),
{
    if folders.len() > 0 {
        let front = folders.drop_last();
        let last = folders.last();
        let n = folders.len() - 1;
        let p = list_of(roms, last);
        lemma_stars_in(disk, roms, front, index);
        assert(favmap::gamelist_path(roms, last) == p);
        assert(disk.all()(p) == disk.at(p));
        let before = favrun::stars_in(disk.all(), roms, front, index);
        let after = favrun::stars_in(disk.all(), roms, folders, index);
        if after is Ok {
            assert forall|k: int| 0 <= k < folders.len() implies readable(
                disk.at(list_of(roms, #[trigger] folders[k])),
            ) by {
                if k < n {
                    assert(front[k] == folders[k]);
                }
            }
            let ids = after->Ok_0;
            assert forall|id: i64|
                ids.contains(id) <==> exists|k: int|
                    0 <= k < folders.len() && starred_in(disk, roms, #[trigger] folders[k], index, id) by {
                assert(starred_in(disk, roms, last, index, id) <==> ids.contains(id) && (before->Ok_0.contains(
                    id,
                ) ==> starred_in(disk, roms, last, index, id))) by {
                    if disk.at(p) is Bytes {
                        let b = disk.at(p)->Bytes_0;
                        let files = gamelist::favorite_files(gamelist::games(vstd::utf8::decode_utf8(b)));
                        assert forall|f: Seq<char>| files.contains(f) == has_star(disk.at(p), f) by {
                            lemma_has_star(b, f);
                        }
                        if starred_in(disk, roms, last, index, id) {
                            let f = choose|f: Seq<char>| #[trigger]
                                has_star(disk.at(p), f) && index.contains_key((last, f)) && index[(last, f)]
                                    == id;
                            assert(files.contains(f));
                            assert(favrun::starred_ids(last, files, index).contains(id));
                        }
                        if favrun::starred_ids(last, files, index).contains(id) {
                            let f = choose|f: Seq<char>| #[trigger]
                                files.contains(f) && index.contains_key((last, f)) && index[(last, f)] == id;
                            assert(has_star(disk.at(p), f));
                        }
                    }
                }
                if exists|k: int| 0 <= k < folders.len() && starred_in(disk, roms, #[trigger] folders[k], index, id) {
                    let k = choose|k: int|
                        0 <= k < folders.len() && starred_in(disk, roms, #[trigger] folders[k], index, id);
                    if k < n {
                        assert(front[k] == folders[k]);
                    }
                }
                if ids.contains(id) {
                    if before->Ok_0.contains(id) {
                        let k = choose|k: int|
                            0 <= k < front.len() && starred_in(disk, roms, #[trigger] front[k], index, id);
                        assert(front[k] == folders[k]);
                    } else {
                        assert(folders[n] == last);
                    }
                }
            }
        } else if before is Ok {
            assert(!readable(disk.at(list_of(roms, folders[n]))));
        } else {
            let k = choose|k: int| 0 <= k < front.len() && !readable(disk.at(list_of(roms, #[trigger] front[k])));
            assert(folders[k] == front[k]);
        }
    }
}

/// The stars of some folders can be had just where the gamelist of every one of
/// them can be read or is not there. A game is then among them just where some one
/// of the folders has a gamelist with a favourite that is the game's file.
pub proof fn law_a_star_counts_in_whichever_folder_it_is(
    disk: &Disk,
    es: &EsPaths,
    folders: &Vec<String>,
    index: &Table<FileKey, i64>,
    r: Result<BTreeSet<i64>, Failure>,
)
    requires
        call_ensures(favrun::stars_on_card, (disk, es, folders, index), r),
    ensures
        r is Ok <==> forall|k: int|
            0 <= k < folders@.len() ==> readable(disk.at(list_of(es.roms@, (#[trigger] folders@[k])@))),
        r matches Ok(ids) ==> forall|id: i64|
            ids@.contains(id) <==> exists|k: int|
                0 <= k < folders@.len() && starred_in(*disk, es.roms@, (#[trigger] folders@[k])@, index@, id),
{
    let ts = text::texts(folders@);
    lemma_stars_in(*disk, es.roms@, ts, index@);
    assert forall|k: int| 0 <= k < folders@.len() implies ts[k] == (#[trigger] folders@[k])@ by {}
    if forall|k: int|
        0 <= k < folders@.len() ==> readable(disk.at(list_of(es.roms@, (#[trigger] folders@[k])@))) {
        assert forall|k: int| 0 <= k < ts.len() implies readable(
            disk.at(list_of(es.roms@, #[trigger] ts[k])),
        ) by {
            assert(ts[k] == folders@[k]@);
        }
    }
    if r is Ok {
        let ids = r->Ok_0;
        let got = favrun::stars_in(disk.all(), es.roms@, ts, index@);
        assert(got == Ok::<Set<i64>, Seq<Seq<char>>>(ids@));
        assert forall|id: i64|
            ids@.contains(id) <==> exists|k: int|
                0 <= k < folders@.len() && starred_in(*disk, es.roms@, (#[trigger] folders@[k])@, index@, id) by {
            assert(got->Ok_0.contains(id) == ids@.contains(id));
            if ids@.contains(id) {
                let k = choose|k: int|
                    0 <= k < ts.len() && starred_in(*disk, es.roms@, #[trigger] ts[k], index@, id);
                assert(ts[k] == folders@[k]@);
            }
            if exists|k: int|
                0 <= k < folders@.len() && starred_in(*disk, es.roms@, (#[trigger] folders@[k])@, index@, id) {
                let k = choose|k: int|
                    0 <= k < folders@.len() && starred_in(*disk, es.roms@, (#[trigger] folders@[k])@, index@, id);
                assert(ts[k] == folders@[k]@);
            }
        }
    }
}

/// The stars of two lists of folders, taken one after the other, are the stars of
/// the one and those of the other.
pub proof fn law_stars_add_up(
    disk: &Disk,
    es: &EsPaths,
    a: &Vec<String>,
    b: &Vec<String>,
    both: &Vec<String>,
    index: &Table<FileKey, i64>,
    ra: Result<BTreeSet<i64>, Failure>,
    rb: Result<BTreeSet<i64>, Failure>,
    r: Result<BTreeSet<i64>, Failure>,
)
    requires
        both@ == a@ + b@,
        call_ensures(favrun::stars_on_card, (disk, es, a, index), ra),
        call_ensures(favrun::stars_on_card, (disk, es, b, index), rb),
        call_ensures(favrun::stars_on_card, (disk, es, both, index), r),
    ensures
        r is Ok <==> ra is Ok && rb is Ok,
        r matches Ok(ids) ==> ids@ == ra->Ok_0@.union(rb->Ok_0@),
{
    law_a_star_counts_in_whichever_folder_it_is(disk, es, a, index, ra);
    law_a_star_counts_in_whichever_folder_it_is(disk, es, b, index, rb);
    law_a_star_counts_in_whichever_folder_it_is(disk, es, both, index, r);
    let n = a@.len() as int;
    assert forall|k: int| 0 <= k < both@.len() implies #[trigger] both@[k] == (if k < n {
        a@[k]
    } else {
        b@[k - n]
    }) by {}
    assert forall|k: int| 0 <= k < a@.len() implies #[trigger] a@[k] == both@[k] by {}
    assert forall|k: int| 0 <= k < b@.len() implies #[trigger] b@[k] == both@[n + k] by {}
    if r is Ok {
        let ids = r->Ok_0@;
        let want = ra->Ok_0@.union(rb->Ok_0@);
        assert forall|id: i64| ids.contains(id) <==> want.contains(id) by {
            if ids.contains(id) {
                let k = choose|k: int|
                    0 <= k < both@.len() && starred_in(*disk, es.roms@, (#[trigger] both@[k])@, index@, id);
                if k < n {
                    assert(both@[k] == a@[k]);
                } else {
                    assert(both@[k] == b@[k - n]);
                }
            }
        }
        assert(ids =~= want);
    }
}

/// Whether a line of a collection file names a game.
pub open spec fn names_game(
    roms: Seq<char>,
    line: Seq<char>,
    index: Map<(Seq<char>, Seq<char>), i64>,
    id: i64,
) -> bool {
    let l = text::trim(line);
    &&& l.len() > 0 && l[0] != '#'
    &&& favmap::located(roms, l) matches Some(k) && index.contains_key(k) && index[k] == id
}

/// Whether what was found at a path is a collection file with a line for a game.
pub open spec fn has_line_for(
    s: Seen,
    roms: Seq<char>,
    index: Map<(Seq<char>, Seq<char>), i64>,
    id: i64,
) -> bool {
    match s {
        Seen::Bytes(b) => {
            let ls = lines::lines(vstd::utf8::decode_utf8(b));
            exists|i: int| 0 <= i < ls.len() && names_game(roms, #[trigger] ls[i], index, id)
        },
        _ => false,
    }
}

/// Where the first entry for a path stands among some lines that list it.
proof fn lemma_first_entry(ls: Seq<Seq<char>>, p: Seq<char>, n: int) -> (k: int)
    requires
        0 <= n <= ls.len(),
        eslist::lists(ls.take(n), p),
    ensures
        0 <= k < ls.len(),
        eslist::first_written(ls, text::trim(ls[k]), k),
        paths::components(text::trim(ls[k])) == paths::components(p),
    decreases n,
{
    let some = ls.take(n);
    let i = choose|i: int|
        0 <= i < some.len() && eslist::is_entry(#[trigger] some[i]) && paths::components(text::trim(some[i]))
            == paths::components(p);
    assert(some[i] == ls[i]);
    if eslist::lists(ls.take(i), p) {
        lemma_first_entry(ls, p, i)
    } else {
        if eslist::lists(ls.take(i), text::trim(ls[i])) {
            let e = ls.take(i);
            let j = choose|j: int|
                0 <= j < e.len() && eslist::is_entry(#[trigger] e[j]) && paths::components(text::trim(e[j]))
                    == paths::components(text::trim(ls[i]));
            assert(paths::components(text::trim(e[j])) == paths::components(p));
        }
        i
    }
}

proof fn lemma_members_in(
    roms: Seq<char>,
    ls: Seq<Seq<char>>,
    index: Map<(Seq<char>, Seq<char>), i64>,
    id: i64,
)
    ensures
        favrun::members_in(roms, ls, index).contains(id) <==> exists|i: int|
            0 <= i < ls.len() && names_game(roms, #[trigger] ls[i], index, id),
{
    if favrun::members_in(roms, ls, index).contains(id) {
        let p = choose|p: Seq<char>| #[trigger]
            eslist::writes(ls, p) && favrun::is_game_at(roms, index, p, id);
        let k = choose|k: int| eslist::first_written(ls, p, k);
        assert(names_game(roms, ls[k], index, id));
    }
    if exists|i: int| 0 <= i < ls.len() && names_game(roms, #[trigger] ls[i], index, id) {
        let i = choose|i: int| 0 <= i < ls.len() && names_game(roms, #[trigger] ls[i], index, id);
        let p = text::trim(ls[i]);
        assert(ls.take(ls.len() as int)[i] == ls[i]);
        assert(eslist::lists(ls.take(ls.len() as int), p));
        let k = lemma_first_entry(ls, p, ls.len() as int);
        let q = text::trim(ls[k]);
        favmap_laws::law_only_what_is_in_a_system_folder_is_located(roms, p);
        favmap_laws::law_only_what_is_in_a_system_folder_is_located(roms, q);
        assert(favmap::located(roms, p) == favmap::located(roms, q));
        assert(eslist::writes(ls, q));
        assert(favrun::is_game_at(roms, index, q, id));
    }
}

/// The games of a collection file can be had just where the file can be read or is
/// not there. A game is then among them just where some line of the file names it.
pub proof fn law_a_collection_file_lists_the_games_it_names(
    disk: &Disk,
    es: &EsPaths,
    name: &str,
    index: &Table<FileKey, i64>,
    r: Result<BTreeSet<i64>, Failure>,
)
    requires
        call_ensures(favrun::members_of_file, (disk, es, name, index), r),
    ensures
        ({
            let s = disk.at(paths::joined(es.collections@, "custom-"@ + eslist::es_named(name@) + ".cfg"@));
            &&& r is Ok <==> readable(s)
            &&& r matches Ok(ids) ==> forall|id: i64|
                ids@.contains(id) <==> has_line_for(s, es.roms@, index@, id)
        }),
{
    let path = favmap::collection_path(es.collections@, name@);
    let s = disk.at(path);
    assert(disk.all()(path) == s);
    if r is Ok {
        let ids = r->Ok_0;
        assert forall|id: i64| ids@.contains(id) <==> has_line_for(s, es.roms@, index@, id) by {
            if s is Bytes {
                let ls = lines::lines(vstd::utf8::decode_utf8(s->Bytes_0));
                lemma_members_in(es.roms@, ls, index@, id);
                assert(ids@ == favrun::members_in(es.roms@, ls, index@));
            }
        }
    }
}

/// Whether a collection takes part: one that a rule fills does not.
pub open spec fn takes_part() -> spec_fn(Collection) -> bool {
    |c: Collection| !c.is_smart && !c.is_virtual
}

/// The games that a collection has on the card: the stars of one system's folder
/// for a list of that system, those of every folder for the list of all stars, and
/// the entries of its own file for any other.
pub open spec fn on_this_card(s: Sides, c: Collection) -> Result<Set<i64>, Seq<Seq<char>>> {
    let index = favmap::file_map(s.known);
    let name = c.name@;
    let head = "★ Best of "@;
    if text::starts(name, head) {
        let folder = favmap::folder_for(s.mapping, text::trim(name.skip(head.len() as int)));
        favrun::stars_in(s.disk, s.roms, seq![folder], index)
    } else if name == "★ Favourites"@ {
        favrun::stars_in(s.disk, s.roms, favmap::folder_list(s.known), index)
    } else {
        favrun::members_at(s.disk, s.roms, favmap::collection_path(s.collections, name), index)
    }
}

/// Whether some moves settle a list between the card and the server, against what
/// they last agreed on: one for each game on this card that the two differ about,
/// in the order of the games. What one side has and was not agreed on comes to the
/// other; what was agreed on and one side no longer has leaves the other.
pub open spec fn settles(
    moves: Seq<Move>,
    here: Set<i64>,
    server: Set<i64>,
    agreed: Set<i64>,
    on_card: Set<i64>,
) -> bool {
    &&& forall|g: i64| #[trigger]
        moves.contains(Move::StarOnServer(g)) <==> on_card.contains(g) && here.contains(g) && !server.contains(g)
            && !agreed.contains(g)
    &&& forall|g: i64| #[trigger]
        moves.contains(Move::UnstarHere(g)) <==> on_card.contains(g) && here.contains(g) && !server.contains(g)
            && agreed.contains(g)
    &&& forall|g: i64| #[trigger]
        moves.contains(Move::StarHere(g)) <==> on_card.contains(g) && !here.contains(g) && server.contains(g)
            && !agreed.contains(g)
    &&& forall|g: i64| #[trigger]
        moves.contains(Move::UnstarOnServer(g)) <==> on_card.contains(g) && !here.contains(g) && server.contains(
            g,
        ) && agreed.contains(g)
    &&& forall|i: int, j: int|
        0 <= i < j < moves.len() ==> favsync::game_of(#[trigger] moves[i]) < favsync::game_of(
            #[trigger] moves[j],
        )
}

proof fn lemma_settles(here: Set<i64>, server: Set<i64>, agreed: Set<i64>, on_card: Set<i64>, moves: Seq<Move>)
    requires
        favsync::reconciled(here, server, agreed, on_card, moves),
    ensures
        settles(moves, here, server, agreed, on_card),
{
    assert forall|m: Move| #[trigger] moves.contains(m) <==> on_card.contains(favsync::game_of(m))
        && favsync::wanted(favsync::game_of(m), here, server, agreed) == Some(m) by {
        if moves.contains(m) {
            let i = moves.index_of(m);
            assert(moves[i] == m);
        }
        if on_card.contains(favsync::game_of(m)) && favsync::wanted(favsync::game_of(m), here, server, agreed)
            == Some(m) {
            assert(moves.contains(favsync::wanted(favsync::game_of(m), here, server, agreed).unwrap()));
        }
    }
}

/// A list is settled between its two sides game by game.
pub proof fn law_a_list_is_settled_game_by_game(
    here: &BTreeSet<i64>,
    server: &BTreeSet<i64>,
    agreed: &BTreeSet<i64>,
    on_card: &BTreeSet<i64>,
    r: Vec<Move>,
)
    requires
        call_ensures(favsync::reconcile, (here, server, agreed, on_card), r),
    ensures
        settles(r@, here@, server@, agreed@, on_card@),
{
    lemma_settles(here@, server@, agreed@, on_card@, r@);
}

/// What two sides agree on once the moves that settle them are made: the games on
/// this card that both have, or that one has and that were never agreed on.
pub proof fn law_what_is_agreed_on_is_what_both_then_have(
    here: &BTreeSet<i64>,
    server: &BTreeSet<i64>,
    agreed: &BTreeSet<i64>,
    on_card: &BTreeSet<i64>,
    moves: Vec<Move>,
    r: BTreeSet<i64>,
)
    requires
        call_ensures(favsync::reconcile, (here, server, agreed, on_card), moves),
        call_ensures(favsync::settled, (here, server, &moves, on_card), r),
    ensures
        forall|g: i64| #[trigger]
            r@.contains(g) <==> on_card@.contains(g) && ((here@.contains(g) && server@.contains(g)) || ((
            here@.contains(g) || server@.contains(g)) && !agreed@.contains(g))),
{
    lemma_agreed(here@, server@, agreed@, on_card@, moves@);
}

/// What both sides have of the games on this card once a list is settled.
proof fn lemma_agreed(here: Set<i64>, server: Set<i64>, agreed: Set<i64>, on_card: Set<i64>, moves: Seq<Move>)
    requires
        favsync::reconciled(here, server, agreed, on_card, moves),
    ensures
        forall|g: i64| #[trigger]
            favsync::agreed_on(here, server, moves, on_card).contains(g) <==> on_card.contains(g) && ((
            here.contains(g) && server.contains(g)) || ((here.contains(g) || server.contains(g))
                && !agreed.contains(g))),
{
    let r = favsync::agreed_on(here, server, moves, on_card);
    lemma_settles(here, server, agreed, on_card, moves);
    assert forall|g: i64| #[trigger] r.contains(g) <==> on_card.contains(g) && ((here.contains(g)
        && server.contains(g)) || ((here.contains(g) || server.contains(g)) && !agreed.contains(g))) by {
        let both = here.contains(g) && server.contains(g);
        favsync::lemma_only_move(moves, g, both);
        if on_card.contains(g) {
            let a = Move::StarOnServer(g);
            let b = Move::UnstarHere(g);
            let c = Move::StarHere(g);
            let d = Move::UnstarOnServer(g);
            if here.contains(g) != server.contains(g) {
                let m = if here.contains(g) {
                    if agreed.contains(g) { b } else { a }
                } else {
                    if agreed.contains(g) { d } else { c }
                };
                assert(moves.contains(m));
                let i = moves.index_of(m);
                assert(favsync::game_of(moves[i]) == g);
            } else {
                assert(!moves.contains(a) && !moves.contains(b) && !moves.contains(c) && !moves.contains(d));
                assert forall|i: int| 0 <= i < moves.len() implies favsync::game_of(#[trigger] moves[i]) != g by {
                    assert(moves.contains(moves[i]));
                }
            }
        }
    }
}

/// What a list was last agreed on to hold: nothing where it was never settled.
pub open spec fn last_agreed(s: Sides, id: Seq<char>) -> Set<i64> {
    if s.base.contains_key(id) {
        s.base[id]@
    } else {
        Set::empty()
    }
}

/// The games on this card.
pub open spec fn on_card(s: Sides) -> Set<i64> {
    Set::new(|id: i64| exists|i: int| 0 <= i < s.known.len() && (#[trigger] s.known[i]).rom_id == id)
}

/// Whether an agreement is what a list then holds on both sides.
pub open spec fn agrees_on(s: Sides, c: Collection, here: Set<i64>, agreed: Set<i64>) -> bool {
    let server = c.rom_ids@.to_set();
    forall|g: i64| #[trigger]
        agreed.contains(g) <==> on_card(s).contains(g) && ((here.contains(g) && server.contains(g)) || ((
        here.contains(g) || server.contains(g)) && !last_agreed(s, c.id@).contains(g)))
}

/// Whether an item is the work that a collection needs.
pub open spec fn is_work_for(s: Sides, c: Collection, w: Work) -> bool {
    &&& takes_part()(c)
    &&& w.id == c.id@
    &&& w.name == c.name@
    &&& w.moves.len() > 0
    &&& on_this_card(s, c) matches Ok(here) && settles(
        w.moves,
        here,
        c.rom_ids@.to_set(),
        last_agreed(s, c.id@),
        on_card(s),
    ) && agrees_on(s, c, here, w.agreed)
    &&& w.held is File <==> !text::starts(c.name@, "★ Best of "@) && c.name@ != "★ Favourites"@
}

/// Whether a collection needs no work, and what it is recorded to hold.
pub open spec fn is_settled(s: Sides, c: Collection, a: (Seq<char>, Set<i64>)) -> bool {
    &&& takes_part()(c)
    &&& a.0 == c.id@
    &&& on_this_card(s, c) matches Ok(here) && agrees_on(s, c, here, a.1) && forall|g: i64|
        on_card(s).contains(g) ==> here.contains(g) == #[trigger] c.rom_ids@.to_set().contains(g)
}

/// Whether a line says that a collection could not be read on the card, and why.
pub open spec fn says_unread(s: Sides, c: Collection, line: Seq<char>) -> bool {
    &&& takes_part()(c)
    &&& on_this_card(s, c) matches Err(e) && line == c.name@ + ": "@ + text::join(e, ": "@)
}

/// Whether a survey is of a collection.
pub open spec fn surveys(s: Sides, c: Collection, l: Looked) -> bool {
    let server = c.rom_ids@.to_set();
    &&& takes_part()(c)
    &&& l.name == c.name@
    &&& on_this_card(s, c) matches Ok(here) && l.here == here.len()
    &&& l.server == server.len()
    &&& l.reachable == server.intersect(on_card(s)).len()
}

/// Whether a plan accounts for a collection: it is among those that could not be
/// read, or those that need no work, or there is an item of work for it.
pub open spec fn accounts_for(s: Sides, c: Collection, p: Planned) -> bool {
    match on_this_card(s, c) {
        Err(_) => exists|i: int| 0 <= i < p.unread.len() && says_unread(s, c, #[trigger] p.unread[i]),
        Ok(_) => {
            ||| exists|i: int| 0 <= i < p.items.len() && is_work_for(s, c, #[trigger] p.items[i])
            ||| exists|i: int| 0 <= i < p.already.len() && is_settled(s, c, #[trigger] p.already[i])
        },
    }
}

/// Whether an item is the work that some collection needs.
pub open spec fn has_work(s: Sides, cs: Seq<Collection>, x: Work) -> bool {
    exists|j: int| 0 <= j < cs.len() && is_work_for(s, #[trigger] cs[j], x)
}

/// Whether some collection needs no work and is recorded so.
pub open spec fn has_settled(s: Sides, cs: Seq<Collection>, x: (Seq<char>, Set<i64>)) -> bool {
    exists|j: int| 0 <= j < cs.len() && is_settled(s, #[trigger] cs[j], x)
}

/// Whether a line says that some collection could not be read.
pub open spec fn has_unread(s: Sides, cs: Seq<Collection>, x: Seq<char>) -> bool {
    exists|j: int| 0 <= j < cs.len() && says_unread(s, #[trigger] cs[j], x)
}

/// Whether a survey is of some collection.
pub open spec fn has_survey(s: Sides, cs: Seq<Collection>, x: Looked) -> bool {
    exists|j: int| 0 <= j < cs.len() && surveys(s, #[trigger] cs[j], x)
}

/// Whether everything in a plan is of some collection that takes part.
pub open spec fn accounted(s: Sides, cs: Seq<Collection>, p: Planned) -> bool {
    &&& forall|i: int| 0 <= i < p.items.len() ==> has_work(s, cs, #[trigger] p.items[i])
    &&& forall|i: int| 0 <= i < p.already.len() ==> has_settled(s, cs, #[trigger] p.already[i])
    &&& forall|i: int| 0 <= i < p.unread.len() ==> has_unread(s, cs, #[trigger] p.unread[i])
    &&& forall|i: int| 0 <= i < p.surveyed.len() ==> has_survey(s, cs, #[trigger] p.surveyed[i])
}

proof fn lemma_on_card(s: Sides)
    ensures
        favmap::numbers(s.known) == on_card(s),
        on_card(s).finite(),
{
    assert(favmap::numbers(s.known) =~= on_card(s));
    let ids = s.known.map_values(|k: favmap::OnCard| k.rom_id);
    vstd::seq_lib::seq_to_set_is_finite(ids);
    assert forall|id: i64| on_card(s).contains(id) implies ids.to_set().contains(id) by {
        let i = choose|i: int| 0 <= i < s.known.len() && (#[trigger] s.known[i]).rom_id == id;
        assert(ids[i] == id);
    }
    assert forall|id: i64| ids.to_set().contains(id) implies on_card(s).contains(id) by {
        let i = ids.index_of(id);
        assert(s.known[i].rom_id == id);
    }
    assert(on_card(s) =~= ids.to_set());
}

/// What one more collection adds to a plan.
proof fn lemma_with_collection(s: Sides, p: Planned, c: Collection)
    ensures
        ({
            let after = favrun::with_collection(s, p, c);
            &&& !takes_part()(c) ==> after == p
            &&& takes_part()(c) ==> {
                &&& accounts_for(s, c, after)
                &&& after.known == p.known
                &&& after.items.len() >= p.items.len() && after.already.len() >= p.already.len()
                    && after.unread.len() >= p.unread.len() && after.surveyed.len() >= p.surveyed.len()
                &&& after.surveyed.len() + after.unread.len() == p.surveyed.len() + p.unread.len() + 1
                &&& after.items.len() + after.already.len() - after.surveyed.len() == p.items.len()
                    + p.already.len() - p.surveyed.len()
                &&& after.agreeing - after.already.len() == p.agreeing - p.already.len()
                &&& forall|i: int|
                    0 <= i < after.items.len() ==> (i < p.items.len() && #[trigger] after.items[i] == p.items[i])
                        || (i >= p.items.len() && is_work_for(s, c, after.items[i]))
                &&& forall|i: int|
                    0 <= i < after.already.len() ==> (i < p.already.len() && #[trigger] after.already[i]
                        == p.already[i]) || (i >= p.already.len() && is_settled(s, c, after.already[i]))
                &&& forall|i: int|
                    0 <= i < after.unread.len() ==> (i < p.unread.len() && #[trigger] after.unread[i]
                        == p.unread[i]) || (i >= p.unread.len() && says_unread(s, c, after.unread[i]))
                &&& forall|i: int|
                    0 <= i < after.surveyed.len() ==> (i < p.surveyed.len() && #[trigger] after.surveyed[i]
                        == p.surveyed[i]) || (i >= p.surveyed.len() && surveys(s, c, after.surveyed[i]))
            }
        }),
{
    lemma_on_card(s);
    let after = favrun::with_collection(s, p, c);
    let kept = favrun::kept_as(c.name@, favmap::folder_list(s.known), s.mapping);
    let held = favrun::held_here(s, kept, c.name@);
    assert(held == on_this_card(s, c));
    if takes_part()(c) {
        match held {
            Err(e) => {
                assert(says_unread(s, c, after.unread[after.unread.len() - 1]));
            },
            Ok(here) => {
                let server = c.rom_ids@.to_set();
                let base = favsync::base_of(s.base, c.id@);
                assert(base == last_agreed(s, c.id@));
                favsync::law_a_list_needs_one_list_of_moves(here, server, base, on_card(s));
                let moves = favsync::moves_for(here, server, base, on_card(s));
                lemma_settles(here, server, base, on_card(s), moves);
                let agreed = favsync::agreed_on(here, server, moves, on_card(s));
                lemma_agreed(here, server, base, on_card(s), moves);
                assert(agrees_on(s, c, here, agreed));
                if moves.len() == 0 {
                    assert forall|g: i64| on_card(s).contains(g) implies here.contains(g) == #[trigger] server.contains(
                        g,
                    ) by {
                        if here.contains(g) != server.contains(g) {
                            assert(favsync::wanted(g, here, server, base) is Some);
                            assert(moves.contains(favsync::wanted(g, here, server, base).unwrap()));
                        }
                    }
                    assert(is_settled(s, c, after.already[after.already.len() - 1]));
                } else {
                    assert(is_work_for(s, c, after.items[after.items.len() - 1]));
                }
                assert(surveys(s, c, after.surveyed[after.surveyed.len() - 1]));
            },
        }
    }
}

proof fn lemma_looked_at_all(s: Sides, cs: Seq<Collection>)
    ensures
        accounted(s, cs, favrun::looked_at(s, cs)),
    decreases cs.len(),
{
    if cs.len() > 0 {
        lemma_looked_at_all(s, cs.drop_last());
        lemma_still_accounted(s, cs, favrun::looked_at(s, cs.drop_last()), favrun::looked_at(s, cs));
    }
}

proof fn lemma_looked_at_counts(s: Sides, cs: Seq<Collection>)
    ensures
        ({
            let p = favrun::looked_at(s, cs);
            &&& p.known == s.known
            &&& p.surveyed.len() + p.unread.len() == cs.filter(takes_part()).len()
            &&& p.items.len() + p.already.len() == p.surveyed.len()
            &&& p.agreeing == p.already.len()
        }),
    decreases cs.len(),
{
    reveal(Seq::filter);
    if cs.len() > 0 {
        lemma_looked_at_counts(s, cs.drop_last());
        lemma_with_collection(s, favrun::looked_at(s, cs.drop_last()), cs.last());
    }
}

proof fn lemma_looked_at_each(s: Sides, cs: Seq<Collection>, j: int)
    requires
        0 <= j < cs.len(),
        takes_part()(cs[j]),
    ensures
        accounts_for(s, cs[j], favrun::looked_at(s, cs)),
    decreases cs.len(),
{
    let front = cs.drop_last();
    let b = favrun::looked_at(s, front);
    let p = favrun::looked_at(s, cs);
    if j < cs.len() - 1 {
        assert(cs[j] == front[j]);
        lemma_looked_at_each(s, front, j);
        lemma_looked_at_all(s, front);
        lemma_still_accounted(s, cs, b, p);
        lemma_accounts_grow(s, cs[j], b, p);
    } else {
        lemma_with_collection(s, b, cs.last());
    }
}

/// Whether a plan begins with all there is in another.
pub open spec fn begins_with(p: Planned, b: Planned) -> bool {
    &&& b.items.is_prefix_of(p.items)
    &&& b.already.is_prefix_of(p.already)
    &&& b.unread.is_prefix_of(p.unread)
}

proof fn lemma_accounts_grow(s: Sides, c: Collection, b: Planned, p: Planned)
    requires
        accounts_for(s, c, b),
        begins_with(p, b),
    ensures
        accounts_for(s, c, p),
{
    match on_this_card(s, c) {
        Err(_) => {
            let i = choose|i: int| 0 <= i < b.unread.len() && says_unread(s, c, #[trigger] b.unread[i]);
            assert(p.unread[i] == b.unread[i]);
        },
        Ok(_) => {
            if exists|i: int| 0 <= i < b.items.len() && is_work_for(s, c, #[trigger] b.items[i]) {
                let i = choose|i: int| 0 <= i < b.items.len() && is_work_for(s, c, #[trigger] b.items[i]);
                assert(p.items[i] == b.items[i]);
            } else {
                let i = choose|i: int| 0 <= i < b.already.len() && is_settled(s, c, #[trigger] b.already[i]);
                assert(p.already[i] == b.already[i]);
            }
        },
    }
}

proof fn lemma_still_accounted(s: Sides, cs: Seq<Collection>, b: Planned, p: Planned)
    requires
        cs.len() > 0,
        accounted(s, cs.drop_last(), b),
        p == favrun::with_collection(s, b, cs.last()),
    ensures
        accounted(s, cs, p),
        begins_with(p, b),
{
    let front = cs.drop_last();
    let m = cs.len() - 1;
    let c = cs[m];
    lemma_with_collection(s, b, c);
    assert forall|i: int| 0 <= i < p.items.len() implies has_work(s, cs, #[trigger] p.items[i]) by {
        if i < b.items.len() {
            assert(p.items[i] == b.items[i]);
            assert(has_work(s, front, b.items[i]));
            let j = choose|j: int| 0 <= j < front.len() && is_work_for(s, #[trigger] front[j], b.items[i]);
            assert(cs[j] == front[j]);
        } else {
            assert(is_work_for(s, cs[m], p.items[i]));
        }
    }
    assert forall|i: int| 0 <= i < p.already.len() implies has_settled(s, cs, #[trigger] p.already[i]) by {
        if i < b.already.len() {
            assert(p.already[i] == b.already[i]);
            assert(has_settled(s, front, b.already[i]));
            let j = choose|j: int| 0 <= j < front.len() && is_settled(s, #[trigger] front[j], b.already[i]);
            assert(cs[j] == front[j]);
        } else {
            assert(is_settled(s, cs[m], p.already[i]));
        }
    }
    assert forall|i: int| 0 <= i < p.unread.len() implies has_unread(s, cs, #[trigger] p.unread[i]) by {
        if i < b.unread.len() {
            assert(p.unread[i] == b.unread[i]);
            assert(has_unread(s, front, b.unread[i]));
            let j = choose|j: int| 0 <= j < front.len() && says_unread(s, #[trigger] front[j], b.unread[i]);
            assert(cs[j] == front[j]);
        } else {
            assert(says_unread(s, cs[m], p.unread[i]));
        }
    }
    assert forall|i: int| 0 <= i < p.surveyed.len() implies has_survey(s, cs, #[trigger] p.surveyed[i]) by {
        if i < b.surveyed.len() {
            assert(p.surveyed[i] == b.surveyed[i]);
            assert(has_survey(s, front, b.surveyed[i]));
            let j = choose|j: int| 0 <= j < front.len() && surveys(s, #[trigger] front[j], b.surveyed[i]);
            assert(cs[j] == front[j]);
        } else {
            assert(surveys(s, cs[m], p.surveyed[i]));
        }
    }
    assert(b.items =~= p.items.take(b.items.len() as int));
    assert(b.already =~= p.already.take(b.already.len() as int));
    assert(b.unread =~= p.unread.take(b.unread.len() as int));
}

proof fn lemma_same_items(a: Seq<Work>, b: Seq<Work>)
    requires
        a.to_multiset() == b.to_multiset(),
    ensures
        a.len() == b.len(),
        forall|w: Work| a.contains(w) == #[trigger] b.contains(w),
{
    broadcast use vstd::seq_lib::group_to_multiset_ensures;

    assert(a.to_multiset().len() == a.len() && b.to_multiset().len() == b.len());
    assert forall|w: Work| a.contains(w) == #[trigger] b.contains(w) by {
        assert(a.contains(w) == (a.to_multiset().count(w) > 0));
        assert(b.contains(w) == (b.to_multiset().count(w) > 0));
    }
}

proof fn lemma_accounted_in_order(s: Sides, cs: Seq<Collection>, q: Planned, p: Planned)
    requires
        accounted(s, cs, q),
        p.already == q.already,
        p.unread == q.unread,
        p.surveyed == q.surveyed,
        forall|w: Work| p.items.contains(w) == #[trigger] q.items.contains(w),
    ensures
        accounted(s, cs, p),
{
    assert forall|i: int| 0 <= i < p.items.len() implies has_work(s, cs, #[trigger] p.items[i]) by {
        assert(p.items.contains(p.items[i]));
        assert(q.items.contains(p.items[i]));
        let k = q.items.index_of(p.items[i]);
        assert(q.items[k] == p.items[i]);
        assert(has_work(s, cs, q.items[k]));
    }
}

proof fn lemma_accounts_in_order(s: Sides, c: Collection, q: Planned, p: Planned)
    requires
        accounts_for(s, c, q),
        p.already == q.already,
        p.unread == q.unread,
        p.surveyed == q.surveyed,
        forall|w: Work| p.items.contains(w) == #[trigger] q.items.contains(w),
    ensures
        accounts_for(s, c, p),
{
    if exists|i: int| 0 <= i < q.items.len() && is_work_for(s, c, #[trigger] q.items[i]) {
        let i = choose|i: int| 0 <= i < q.items.len() && is_work_for(s, c, #[trigger] q.items[i]);
        assert(q.items.contains(q.items[i]));
        let k = p.items.index_of(q.items[i]);
        assert(is_work_for(s, c, p.items[k]));
    } else if on_this_card(s, c) is Ok {
        let i = choose|i: int| 0 <= i < q.already.len() && is_settled(s, c, #[trigger] q.already[i]);
        assert(is_settled(s, c, p.already[i]));
    } else {
        let i = choose|i: int| 0 <= i < q.unread.len() && says_unread(s, c, #[trigger] q.unread[i]);
        assert(says_unread(s, c, p.unread[i]));
    }
}

/// Every collection that takes part is in a plan just once: as one that could not
/// be read, as one that needs no work, or as an item of work; and nothing else is
/// in it. The items with the most moves come first, and those with as many by name.
pub proof fn law_every_list_is_planned_for(
    collections: &Vec<Collection>,
    es: &EsPaths,
    known: &Vec<Known>,
    baseline: &Baseline,
    platform: &Platform,
    disk: &Disk,
    r: Plan,
)
    requires
        call_ensures(favrun::plan_from, (collections, es, known, baseline, platform, disk), r),
    ensures
        ({
            let s = favrun::sides(*disk, *es, known@, *baseline, *platform);
            let cs = collections@;
            let p = r@;
            &&& accounted(s, cs, p)
            &&& forall|j: int| 0 <= j < cs.len() && takes_part()(#[trigger] cs[j]) ==> accounts_for(s, cs[j], p)
            &&& p.surveyed.len() + p.unread.len() == cs.filter(takes_part()).len()
            &&& p.items.len() + p.already.len() == p.surveyed.len()
            &&& p.agreeing == p.already.len()
            &&& p.known == favmap::cards(known@)
            &&& forall|i: int, j: int|
                0 <= i < j < p.items.len() ==> (#[trigger] p.items[i]).moves.len() > (
                #[trigger] p.items[j]).moves.len() || (p.items[i].moves.len() == p.items[j].moves.len()
                    && !order::less(p.items[j].name, p.items[i].name))
        }),
{
    let s = favrun::sides(*disk, *es, known@, *baseline, *platform);
    let cs = collections@;
    let q = favrun::looked_at(s, cs);
    let p = r@;
    lemma_looked_at_all(s, cs);
    lemma_looked_at_counts(s, cs);
    favrun::law_the_biggest_lists_come_first(q.items);
    lemma_same_items(p.items, q.items);
    lemma_accounted_in_order(s, cs, q, p);
    assert forall|j: int| 0 <= j < cs.len() && takes_part()(#[trigger] cs[j]) implies accounts_for(s, cs[j], p) by {
        lemma_looked_at_each(s, cs, j);
        lemma_accounts_in_order(s, cs[j], q, p);
    }
    assert forall|i: int, j: int| 0 <= i < j < p.items.len() implies (#[trigger] p.items[i]).moves.len() > (
    #[trigger] p.items[j]).moves.len() || (p.items[i].moves.len() == p.items[j].moves.len() && !order::less(
        p.items[j].name,
        p.items[i].name,
    )) by {
        assert(!favrun::ahead(p.items[j], p.items[i]));
    }
}

} // verus!
