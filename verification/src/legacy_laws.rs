//! Where the folders under old ids go: home to the one game all of their files are
//! named after, and nowhere else.

use vstd::prelude::*;
use crate::crypto;
use crate::legacy;
use crate::legacy::{OldFile, OldSaves, OldStates, Placing, Report};
use crate::number;
use crate::text;

verus! {

/// Whether a file is named after a game, letter for letter.
pub open spec fn exactly(game: (i64, String), local: Seq<char>) -> bool {
    legacy::stem(game.1@) == legacy::stem(local)
}

/// Whether a file is named after a game, small and capital letters alike.
pub open spec fn loosely(game: (i64, String), local: Seq<char>) -> bool {
    crypto::unicode_lower(legacy::stem(game.1@)) == crypto::unicode_lower(legacy::stem(local))
}

/// Whether a file is a game's and no other's: the one that it is named after letter
/// for letter; or, where there is no such game, the one that it is named after
/// small and capital letters alike.
pub open spec fn belongs(games: Seq<(i64, String)>, local: Seq<char>, i: int) -> bool {
    &&& 0 <= i < games.len()
    &&& {
        ||| exactly(games[i], local) && forall|j: int|
            0 <= j < games.len() && j != i ==> !exactly(#[trigger] games[j], local)
        ||| loosely(games[i], local) && forall|j: int|
            0 <= j < games.len() ==> !exactly(#[trigger] games[j], local) && (j != i ==> !loosely(
                games[j],
                local,
            ))
    }
}

/// Whether a file counts: one whose name begins with a dot does not.
pub open spec fn counts(f: OldFile) -> bool {
    f.name@.len() == 0 || f.name@[0] != '.'
}

/// Whether a file is of the game with an id, and of no other.
pub open spec fn is_of(games: Seq<(i64, String)>, f: OldFile, id: i64) -> bool {
    exists|i: int| #[trigger] belongs(games, f.local@, i) && games[i].0 == id
}

/// Whether a folder has a home: it has a file that counts, and each that does is of
/// this game and of no other.
pub open spec fn at_home(games: Seq<(i64, String)>, files: Seq<OldFile>, id: i64) -> bool {
    &&& exists|k: int| 0 <= k < files.len() && counts(#[trigger] files[k])
    &&& forall|k: int| 0 <= k < files.len() && counts(#[trigger] files[k]) ==> is_of(games, files[k], id)
}

/// Where the games stand that are found by a name.
proof fn lemma_matching(games: Seq<(i64, Seq<char>)>, folded: bool, name: Seq<char>) -> (at: Seq<int>)
    ensures
        at.len() == legacy::matching(games, folded, name).len(),
        forall|k: int|
            0 <= k < at.len() ==> 0 <= #[trigger] at[k] < games.len() && legacy::sought(folded, games[at[k]].1)
                == name && legacy::matching(games, folded, name)[k] == games[at[k]].0,
        forall|k: int, l: int| 0 <= k < l < at.len() ==> #[trigger] at[k] < #[trigger] at[l],
        forall|i: int|
            0 <= i < games.len() && legacy::sought(folded, (#[trigger] games[i]).1) == name ==> at.contains(i),
    decreases games.len(),
{
    if games.len() == 0 {
        Seq::empty()
    } else {
        let front = games.drop_last();
        let before = lemma_matching(front, folded, name);
        let n = games.len() - 1;
        let hit = legacy::sought(folded, games.last().1) == name;
        let at = if hit {
            before.push(n)
        } else {
            before
        };
        assert forall|k: int| 0 <= k < at.len() implies 0 <= #[trigger] at[k] < games.len() && legacy::sought(
            folded,
            games[at[k]].1,
        ) == name && legacy::matching(games, folded, name)[k] == games[at[k]].0 by {
            if k < before.len() {
                assert(at[k] == before[k]);
                assert(front[before[k]] == games[before[k]]);
            }
        }
        assert forall|i: int|
            0 <= i < games.len() && legacy::sought(folded, (#[trigger] games[i]).1) == name implies at.contains(
            i,
        ) by {
            if i < n {
                assert(front[i] == games[i]);
                let k = before.index_of(i);
                assert(at[k] == i);
            } else {
                assert(at[at.len() - 1] == i);
            }
        }
        at
    }
}

/// A file has one owner just where it belongs to one game.
proof fn lemma_owner(games: Seq<(i64, String)>, local: Seq<char>)
    ensures
        legacy::owners(legacy::named(games), local).len() == 1 <==> exists|i: int| belongs(games, local, i),
        forall|i: int| #[trigger]
            belongs(games, local, i) ==> legacy::owners(legacy::named(games), local) == seq![games[i].0],
        legacy::owners(legacy::named(games), local).len() == 0 <==> forall|j: int|
            0 <= j < games.len() ==> !exactly(#[trigger] games[j], local) && !loosely(games[j], local),
{
    let gs = legacy::named(games);
    let a = lemma_matching(gs, false, legacy::sought(false, local));
    let b = lemma_matching(gs, true, legacy::sought(true, local));
    let exact = legacy::matching(gs, false, legacy::sought(false, local));
    let loose = legacy::matching(gs, true, legacy::sought(true, local));
    assert forall|j: int| 0 <= j < games.len() implies exactly(#[trigger] games[j], local) == a.contains(j)
        && loosely(games[j], local) == b.contains(j) by {
        assert(gs[j] == (games[j].0, games[j].1@));
        if a.contains(j) {
            let k = a.index_of(j);
            assert(a[k] == j);
        }
        if b.contains(j) {
            let k = b.index_of(j);
            assert(b[k] == j);
        }
    }
    let got = legacy::owners(gs, local);
    if a.len() > 0 {
        assert(games[a[0]] == games[a[0]]);
        assert(a.contains(a[0]));
        if a.len() == 1 {
            assert(belongs(games, local, a[0])) by {
                assert forall|j: int| 0 <= j < games.len() && j != a[0] implies !exactly(
                    #[trigger] games[j],
                    local,
                ) by {}
            }
        } else {
            assert(a.contains(a[1]) && a[0] < a[1]);
            assert(exactly(games[a[0]], local) && exactly(games[a[1]], local));
        }
    } else if b.len() > 0 {
        assert(b.contains(b[0]));
        assert(loosely(games[b[0]], local));
        if b.len() == 1 {
            assert(belongs(games, local, b[0])) by {
                assert forall|j: int| 0 <= j < games.len() implies !exactly(#[trigger] games[j], local) && (j
                    != b[0] ==> !loosely(games[j], local)) by {}
            }
        } else {
            assert(b.contains(b[1]) && b[0] < b[1]);
            assert(loosely(games[b[0]], local) && loosely(games[b[1]], local));
        }
    }
    assert forall|i: int| #[trigger] belongs(games, local, i) implies got == seq![games[i].0] by {
        if exactly(games[i], local) {
            assert(a.contains(i));
            assert forall|k: int| 0 <= k < a.len() implies #[trigger] a[k] == i by {
                assert(a.contains(a[k]));
                assert(exactly(games[a[k]], local));
            }
            assert(a.len() == 1) by {
                if a.len() > 1 {
                    assert(a[0] < a[1]);
                }
            }
            assert(gs[i] == (games[i].0, games[i].1@));
            assert(got =~= seq![games[i].0]);
        } else {
            assert(b.contains(i));
            assert(a.len() == 0) by {
                if a.len() > 0 {
                    assert(a.contains(a[0]));
                    assert(exactly(games[a[0]], local));
                }
            }
            assert forall|k: int| 0 <= k < b.len() implies #[trigger] b[k] == i by {
                assert(b.contains(b[k]));
                assert(loosely(games[b[k]], local));
            }
            assert(b.len() == 1) by {
                if b.len() > 1 {
                    assert(b[0] < b[1]);
                }
            }
            assert(gs[i] == (games[i].0, games[i].1@));
            assert(got =~= seq![games[i].0]);
        }
    }
}

proof fn lemma_counts(f: OldFile)
    ensures
        counts(f) == !legacy::hidden(f.name@),
{
    reveal_strlit(".");
    let n = f.name@;
    if n.len() > 0 {
        assert(n.take(1) =~= seq![n[0]]);
        assert("."@ =~= seq!['.']);
        if n.take(1) == "."@ {
            assert(n.take(1)[0] == '.');
        }
    }
}

/// Whether a file belongs to some one game.
pub open spec fn has_owner(games: Seq<(i64, String)>, f: OldFile) -> bool {
    exists|i: int| belongs(games, f.local@, i)
}

/// A folder is in trouble where some file that counts belongs to no one game.
proof fn lemma_why(games: Seq<(i64, String)>, files: Seq<OldFile>)
    ensures
        legacy::why(legacy::named(games), legacy::files_of(files)) is None <==> forall|k: int|
            0 <= k < files.len() && counts(#[trigger] files[k]) ==> has_owner(games, files[k]),
    decreases files.len(),
{
    if files.len() > 0 {
        let fs = legacy::files_of(files);
        let front = files.drop_last();
        let f = files.last();
        let m = files.len() - 1;
        lemma_why(games, front);
        lemma_counts(f);
        lemma_owner(games, f.local@);
        assert(legacy::files_of(front) =~= fs.drop_last());
        assert(fs.last() == (f.name@, f.local@));
        assert(files[m] == f);
        assert forall|k: int| 0 <= k < m implies #[trigger] files[k] == front[k] by {}
        assert forall|k: int| 0 <= k < m implies #[trigger] front[k] == files[k] by {}
    }
}

/// The owner of each file that counts is among the owners of a folder's files.
proof fn lemma_target_of(games: Seq<(i64, String)>, files: Seq<OldFile>, k: int)
    requires
        0 <= k < files.len(),
        counts(files[k]),
        has_owner(games, files[k]),
    ensures
        legacy::targets(legacy::named(games), legacy::files_of(files)).contains(
            legacy::owners(legacy::named(games), files[k].local@)[0],
        ),
    decreases files.len(),
{
    let gs = legacy::named(games);
    let fs = legacy::files_of(files);
    let ids = legacy::targets(gs, fs);
    let front = files.drop_last();
    let f = files.last();
    assert(legacy::files_of(front) =~= fs.drop_last());
    assert(fs.last() == (f.name@, f.local@));
    let before = legacy::targets(gs, fs.drop_last());
    let id = legacy::owners(gs, files[k].local@)[0];
    if k < files.len() - 1 {
        assert(files[k] == front[k]);
        lemma_target_of(games, front, k);
        let n = before.index_of(id);
        assert(ids[n] == before[n]);
    } else {
        lemma_counts(f);
        lemma_owner(games, f.local@);
        assert(ids[ids.len() - 1] == id);
    }
}

/// Each of the owners of a folder's files owns one of them that counts.
proof fn lemma_target_from(games: Seq<(i64, String)>, files: Seq<OldFile>, n: int) -> (k: int)
    requires
        0 <= n < legacy::targets(legacy::named(games), legacy::files_of(files)).len(),
    ensures
        0 <= k < files.len(),
        counts(files[k]),
        is_of(games, files[k], legacy::targets(legacy::named(games), legacy::files_of(files))[n]),
    decreases files.len(),
{
    let gs = legacy::named(games);
    let fs = legacy::files_of(files);
    let ids = legacy::targets(gs, fs);
    let front = files.drop_last();
    let f = files.last();
    assert(legacy::files_of(front) =~= fs.drop_last());
    assert(fs.last() == (f.name@, f.local@));
    let before = legacy::targets(gs, fs.drop_last());
    if n < before.len() {
        assert(ids[n] == before[n]);
        let k = lemma_target_from(games, front, n);
        assert(files[k] == front[k]);
        k
    } else {
        lemma_counts(f);
        lemma_owner(games, f.local@);
        let i = choose|i: int| belongs(games, f.local@, i);
        assert(ids[n] == games[i].0);
        files.len() - 1
    }
}

/// A folder is placed with a game just where that game is its home.
proof fn lemma_verdict(games: Seq<(i64, String)>, files: Seq<OldFile>)
    ensures
        ({
            let v = legacy::verdict(legacy::named(games), legacy::files_of(files));
            &&& v matches Ok(id) ==> at_home(games, files, id)
            &&& forall|id: i64| #[trigger] at_home(games, files, id) ==> v == Ok::<i64, Seq<char>>(id)
        }),
{
    let gs = legacy::named(games);
    let fs = legacy::files_of(files);
    let v = legacy::verdict(gs, fs);
    let ids = legacy::targets(gs, fs);
    lemma_why(games, files);
    assert forall|k: int, id: i64|
        0 <= k < files.len() && #[trigger] is_of(games, #[trigger] files[k], id) implies legacy::owners(
        gs,
        files[k].local@,
    ) == seq![id] by {
        lemma_owner(games, files[k].local@);
    }
    if v is Ok {
        let id = v->Ok_0;
        let one = lemma_target_from(games, files, 0);
        assert(counts(files[one]));
        assert forall|k: int| 0 <= k < files.len() && counts(#[trigger] files[k]) implies is_of(
            games,
            files[k],
            id,
        ) by {
            lemma_owner(games, files[k].local@);
            lemma_target_of(games, files, k);
            let i = choose|i: int| belongs(games, files[k].local@, i);
            let own = legacy::owners(gs, files[k].local@);
            assert(own == seq![games[i].0]);
            let n = ids.index_of(own[0]);
            assert(ids[n] == ids[0]);
            assert(games[i].0 == id);
        }
    }
    assert forall|id: i64| #[trigger] at_home(games, files, id) implies v == Ok::<i64, Seq<char>>(id) by {
        assert forall|k: int| 0 <= k < files.len() && counts(#[trigger] files[k]) implies has_owner(
            games,
            files[k],
        ) by {
            assert(is_of(games, files[k], id));
        }
        let one = choose|k: int| 0 <= k < files.len() && counts(#[trigger] files[k]);
        lemma_target_of(games, files, one);
        assert forall|n: int| 0 <= n < ids.len() implies #[trigger] ids[n] == id by {
            let k = lemma_target_from(games, files, n);
            assert(is_of(games, files[k], id));
            assert(legacy::owners(gs, files[k].local@) == seq![ids[n]]);
            assert(seq![ids[n]][0] == seq![id][0]);
        }
    }
}

/// What becomes of the folders of saves, one by one.
proof fn lemma_placed(games: Seq<(i64, String)>, saves: Seq<OldSaves>)
    ensures
        ({
            let fate = legacy::placed(legacy::named(games), legacy::folders(saves));
            &&& forall|k: int, id: i64|
                0 <= k < saves.len() && #[trigger] at_home(games, (#[trigger] saves[k]).files@, id)
                    ==> fate.moved.contains_key(saves[k].id)
            &&& forall|old: i64| #[trigger]
                fate.moved.contains_key(old) ==> exists|k: int|
                    0 <= k < saves.len() && (#[trigger] saves[k]).id == old && at_home(
                        games,
                        saves[k].files@,
                        fate.moved[old],
                    )
            &&& forall|k: int|
                0 <= k < saves.len() && homeless(games, #[trigger] saves[k]) ==> fate.left.contains_key(saves[k].id)
            &&& forall|old: i64| #[trigger]
                fate.left.contains_key(old) ==> exists|k: int|
                    0 <= k < saves.len() && (#[trigger] saves[k]).id == old && homeless(games, saves[k])
                        && legacy::verdict(legacy::named(games), legacy::files_of(saves[k].files@)) == Err::<
                        i64,
                        Seq<char>,
                    >(fate.left[old])
            &&& fate.states_moved == Map::<i64, i64>::empty()
        }),
    decreases saves.len(),
{
    let gs = legacy::named(games);
    let all = legacy::folders(saves);
    let fate = legacy::placed(gs, all);
    if saves.len() > 0 {
        let front = saves.drop_last();
        let last = saves.last();
        let m = saves.len() - 1;
        lemma_placed(games, front);
        lemma_verdict(games, last.files@);
        assert(legacy::folders(front) =~= all.drop_last());
        assert(all.last() == (last.id, legacy::files_of(last.files@)));
        assert(saves[m] == last);
        let before = legacy::placed(gs, all.drop_last());
        assert forall|k: int, id: i64|
            0 <= k < saves.len() && #[trigger] at_home(games, (#[trigger] saves[k]).files@, id) implies fate.moved.contains_key(
            saves[k].id,
        ) by {
            if k < m {
                assert(at_home(games, front[k].files@, id));
            }
        }
        assert forall|old: i64| #[trigger] fate.moved.contains_key(old) implies exists|k: int|
            0 <= k < saves.len() && (#[trigger] saves[k]).id == old && at_home(
                games,
                saves[k].files@,
                fate.moved[old],
            ) by {
            if before.moved.contains_key(old) && fate.moved[old] == before.moved[old] {
                let k = choose|k: int|
                    0 <= k < front.len() && (#[trigger] front[k]).id == old && at_home(
                        games,
                        front[k].files@,
                        before.moved[old],
                    );
                assert(saves[k] == front[k]);
            } else {
                assert(at_home(games, saves[m].files@, fate.moved[old]));
            }
        }
        assert forall|k: int|
            0 <= k < saves.len() && homeless(games, #[trigger] saves[k]) implies fate.left.contains_key(
            saves[k].id,
        ) by {
            if k < m {
                assert(homeless(games, front[k]));
            } else if legacy::verdict(gs, legacy::files_of(last.files@)) is Ok {
                assert(at_home(games, last.files@, legacy::verdict(gs, legacy::files_of(last.files@))->Ok_0));
            }
        }
        assert forall|old: i64| #[trigger] fate.left.contains_key(old) implies exists|k: int|
            0 <= k < saves.len() && (#[trigger] saves[k]).id == old && homeless(games, saves[k])
                && legacy::verdict(gs, legacy::files_of(saves[k].files@)) == Err::<i64, Seq<char>>(
                fate.left[old],
            ) by {
            if before.left.contains_key(old) && fate.left[old] == before.left[old] {
                let k = choose|k: int|
                    0 <= k < front.len() && (#[trigger] front[k]).id == old && homeless(games, front[k])
                        && legacy::verdict(gs, legacy::files_of(front[k].files@)) == Err::<i64, Seq<char>>(
                        before.left[old],
                    );
                assert(saves[k] == front[k]);
            } else {
                assert(homeless(games, saves[m]));
            }
        }
    }
}

/// Whether a folder has no home.
pub open spec fn homeless(games: Seq<(i64, String)>, dir: OldSaves) -> bool {
    forall|id: i64| !#[trigger] at_home(games, dir.files@, id)
}

/// Whether a folder of states was written within a day of the newest save under
/// the same number.
pub open spec fn same_day(s: OldStates) -> bool {
    match (s.newest, s.newest_save) {
        (Some(a), Some(b)) => {
            let apart = (a.secs - b.secs) * 1_000_000_000 + a.nanos - b.nanos;
            -86_400_000_000_000 <= apart <= 86_400_000_000_000
        },
        _ => false,
    }
}

proof fn lemma_following(fate: legacy::Fate, states: Seq<OldStates>)
    requires
        fate.states_moved == Map::<i64, i64>::empty(),
    ensures
        ({
            let after = legacy::following(fate, states);
            &&& after.moved == fate.moved
            &&& forall|k: int|
                0 <= k < states.len() && same_day(#[trigger] states[k]) && fate.moved.contains_key(states[k].id)
                    ==> after.states_moved.contains_key(states[k].id)
            &&& forall|old: i64| #[trigger]
                after.states_moved.contains_key(old) ==> fate.moved.contains_key(old) && after.states_moved[old]
                    == fate.moved[old] && exists|k: int|
                    0 <= k < states.len() && (#[trigger] states[k]).id == old && same_day(states[k])
            &&& forall|old: i64| #[trigger]
                fate.left.contains_key(old) ==> after.left.contains_key(old) && after.left[old] == fate.left[old]
            &&& forall|k: int|
                0 <= k < states.len() && !(same_day(#[trigger] states[k]) && fate.moved.contains_key(
                    states[k].id,
                )) ==> after.left.contains_key(states[k].id)
            &&& forall|old: i64| #[trigger]
                after.left.contains_key(old) && !fate.left.contains_key(old) ==> exists|k: int|
                    0 <= k < states.len() && (#[trigger] states[k]).id == old && !(same_day(states[k])
                        && fate.moved.contains_key(old))
        }),
    decreases states.len(),
{
    if states.len() > 0 {
        let front = states.drop_last();
        let last = states.last();
        let m = states.len() - 1;
        lemma_following(fate, front);
        let before = legacy::following(fate, front);
        let after = legacy::following(fate, states);
        assert(states[m] == last);
        assert(same_day(last) == legacy::together(last));
        assert forall|k: int|
            0 <= k < states.len() && same_day(#[trigger] states[k]) && fate.moved.contains_key(
                states[k].id,
            ) implies after.states_moved.contains_key(states[k].id) by {
            if k < m {
                assert(states[k] == front[k]);
            }
        }
        assert forall|old: i64| #[trigger] after.states_moved.contains_key(old) implies fate.moved.contains_key(
            old,
        ) && after.states_moved[old] == fate.moved[old] && exists|k: int|
            0 <= k < states.len() && (#[trigger] states[k]).id == old && same_day(states[k]) by {
            if before.states_moved.contains_key(old) {
                let k = choose|k: int|
                    0 <= k < front.len() && (#[trigger] front[k]).id == old && same_day(front[k]);
                assert(states[k] == front[k]);
            }
        }
        assert forall|k: int|
            0 <= k < states.len() && !(same_day(#[trigger] states[k]) && fate.moved.contains_key(
                states[k].id,
            )) implies after.left.contains_key(states[k].id) by {
            if k < m {
                assert(states[k] == front[k]);
            }
        }
        assert forall|old: i64| #[trigger]
            after.left.contains_key(old) && !fate.left.contains_key(old) implies exists|k: int|
            0 <= k < states.len() && (#[trigger] states[k]).id == old && !(same_day(states[k])
                && fate.moved.contains_key(old)) by {
            if before.left.contains_key(old) {
                let k = choose|k: int|
                    0 <= k < front.len() && (#[trigger] front[k]).id == old && !(same_day(front[k])
                        && fate.moved.contains_key(old));
                assert(states[k] == front[k]);
            }
        }
    }
}

/// A folder of saves that has a home moves there, and one that has none stays; and
/// nothing moves or stays but for that. Nothing is guessed and nothing is left that
/// need not be.
pub proof fn law_a_folder_goes_home(
    saves: &Vec<OldSaves>,
    states: &Vec<OldStates>,
    games: &Vec<(i64, String)>,
    r: Report,
)
    requires
        call_ensures(legacy::plan, (saves, states, games), r),
    ensures
        forall|k: int, id: i64|
            0 <= k < saves@.len() && #[trigger] at_home(games@, (#[trigger] saves@[k]).files@, id)
                ==> r.moved@.contains_key(saves@[k].id),
        forall|k: int, id: i64|
            0 <= k < saves@.len() && #[trigger] at_home(games@, (#[trigger] saves@[k]).files@, id) && (forall|
                l: int,
            | 0 <= l < saves@.len() && l != k ==> (#[trigger] saves@[l]).id != saves@[k].id)
                ==> r.moved@[saves@[k].id] == id,
        forall|old: i64| #[trigger]
            r.moved@.contains_key(old) ==> exists|k: int|
                0 <= k < saves@.len() && (#[trigger] saves@[k]).id == old && at_home(
                    games@,
                    saves@[k].files@,
                    r.moved@[old],
                ),
        forall|k: int|
            0 <= k < saves@.len() && homeless(games@, #[trigger] saves@[k]) ==> r.left@.contains_key(saves@[k].id),
        forall|old: i64| #[trigger]
            r.left@.contains_key(old) ==> (exists|k: int|
                0 <= k < saves@.len() && (#[trigger] saves@[k]).id == old && homeless(games@, saves@[k]))
                || exists|k: int|
                0 <= k < states@.len() && (#[trigger] states@[k]).id == old && !(same_day(states@[k])
                    && r.moved@.contains_key(old)),
{
    let fate = legacy::placed(legacy::named(games@), legacy::folders(saves@));
    lemma_placed(games@, saves@);
    lemma_following(fate, states@);
    assert(r.left@.dom() =~= r@.left.dom());
    assert(r.moved@ == fate.moved);
    assert forall|k: int, id: i64|
        0 <= k < saves@.len() && #[trigger] at_home(games@, (#[trigger] saves@[k]).files@, id) && (forall|l: int|
            0 <= l < saves@.len() && l != k ==> (#[trigger] saves@[l]).id != saves@[k].id) implies r.moved@[saves@[k].id]
        == id by {
        let old = saves@[k].id;
        assert(fate.moved.contains_key(old));
        let other = choose|l: int|
            0 <= l < saves@.len() && (#[trigger] saves@[l]).id == old && at_home(
                games@,
                saves@[l].files@,
                fate.moved[old],
            );
        assert(other == k);
        lemma_verdict(games@, saves@[k].files@);
        assert(at_home(games@, saves@[k].files@, fate.moved[old]));
    }
    assert forall|k: int| 0 <= k < saves@.len() && homeless(games@, #[trigger] saves@[k]) implies r.left@.contains_key(
        saves@[k].id,
    ) by {
        assert(fate.left.contains_key(saves@[k].id));
        assert(r@.left.contains_key(saves@[k].id));
    }
    assert forall|old: i64| #[trigger] r.left@.contains_key(old) implies (exists|k: int|
        0 <= k < saves@.len() && (#[trigger] saves@[k]).id == old && homeless(games@, saves@[k])) || exists|
        k: int,
    | 0 <= k < states@.len() && (#[trigger] states@[k]).id == old && !(same_day(states@[k]) && r.moved@.contains_key(
        old,
    )) by {
        assert(r@.left.contains_key(old));
    }
}

/// The states of an old id go where its saves go, just where they were written
/// within a day of them; where they do not go it says why.
pub proof fn law_states_go_with_saves_of_the_same_day(
    saves: &Vec<OldSaves>,
    states: &Vec<OldStates>,
    games: &Vec<(i64, String)>,
    r: Report,
)
    requires
        call_ensures(legacy::plan, (saves, states, games), r),
    ensures
        forall|k: int|
            0 <= k < states@.len() && same_day(#[trigger] states@[k]) && r.moved@.contains_key(states@[k].id)
                ==> r.states_moved@.contains_key(states@[k].id),
        forall|old: i64| #[trigger]
            r.states_moved@.contains_key(old) ==> r.moved@.contains_key(old) && r.states_moved@[old]
                == r.moved@[old] && exists|k: int|
                0 <= k < states@.len() && (#[trigger] states@[k]).id == old && same_day(states@[k]),
        forall|k: int|
            0 <= k < states@.len() && !(same_day(#[trigger] states@[k]) && r.moved@.contains_key(states@[k].id))
                ==> r.left@.contains_key(states@[k].id),
{
    let fate = legacy::placed(legacy::named(games@), legacy::folders(saves@));
    lemma_placed(games@, saves@);
    lemma_following(fate, states@);
    assert(r.left@.dom() =~= r@.left.dom());
    assert forall|k: int|
        0 <= k < states@.len() && !(same_day(#[trigger] states@[k]) && r.moved@.contains_key(
            states@[k].id,
        )) implies r.left@.contains_key(states@[k].id) by {
        assert(r@.left.contains_key(states@[k].id));
    }
}

// ---------------------------------------------------------------------------
// Moving
// ---------------------------------------------------------------------------

/// The files whose names are taken, or those whose names are not.
pub open spec fn taken_or_not(taken: bool) -> spec_fn((String, bool)) -> bool {
    |f: (String, bool)| f.1 == taken
}

proof fn lemma_staying(files: Seq<(String, bool)>, taken: bool)
    ensures
        legacy::staying(legacy::entries_of(files), taken).len() == files.filter(taken_or_not(taken)).len(),
        forall|k: int|
            0 <= k < files.filter(taken_or_not(taken)).len() ==> #[trigger] legacy::staying(
                legacy::entries_of(files),
                taken,
            )[k] == files.filter(taken_or_not(taken))[k].0@,
    decreases files.len(),
{
    reveal(Seq::filter);
    if files.len() > 0 {
        lemma_staying(files.drop_last(), taken);
        assert(legacy::entries_of(files).drop_last() =~= legacy::entries_of(files.drop_last()));
        assert(legacy::entries_of(files).last() == (files.last().0@, files.last().1));
    }
}

/// Of a folder that is merged into another, the files whose names are free there
/// move and the others stay, each in its order.
pub proof fn law_only_files_whose_names_are_free_move(files: &Vec<(String, bool)>, r: (Vec<String>, Vec<String>))
    requires
        call_ensures(legacy::merge_into, (files,), r),
    ensures
        r.0@.len() == files@.filter(taken_or_not(false)).len(),
        r.1@.len() == files@.filter(taken_or_not(true)).len(),
        forall|k: int|
            0 <= k < r.0@.len() ==> (#[trigger] r.0@[k])@ == files@.filter(taken_or_not(false))[k].0@,
        forall|k: int|
            0 <= k < r.1@.len() ==> (#[trigger] r.1@[k])@ == files@.filter(taken_or_not(true))[k].0@,
{
    lemma_staying(files@, false);
    lemma_staying(files@, true);
    assert(text::texts(r.0@).len() == r.0@.len() && text::texts(r.1@).len() == r.1@.len());
    assert forall|k: int| 0 <= k < r.0@.len() implies (#[trigger] r.0@[k])@ == files@.filter(
        taken_or_not(false),
    )[k].0@ by {
        assert(text::texts(r.0@)[k] == r.0@[k]@);
    }
    assert forall|k: int| 0 <= k < r.1@.len() implies (#[trigger] r.1@[k])@ == files@.filter(
        taken_or_not(true),
    )[k].0@ by {
        assert(text::texts(r.1@)[k] == r.1@[k]@);
    }
}

/// The newest of some files is written no earlier than any other that counts, and
/// is one of them; there is none just where no file that counts says when.
pub proof fn law_the_newest_is_no_older_than_any(files: Seq<(String, Option<legacy::Moment>)>)
    ensures
        legacy::newest_at(files) is None <==> forall|k: int|
            0 <= k < files.len() && !text::starts((#[trigger] files[k]).0@, "."@) ==> files[k].1 is None,
        legacy::newest_at(files) matches Some(at) ==> {
            &&& forall|k: int|
                0 <= k < files.len() && !text::starts((#[trigger] files[k]).0@, "."@) && files[k].1 is Some
                    ==> files[k].1.unwrap().at() <= at
            &&& exists|k: int|
                0 <= k < files.len() && !text::starts((#[trigger] files[k]).0@, "."@) && files[k].1 is Some
                    && files[k].1.unwrap().at() == at
        },
    decreases files.len(),
{
    if files.len() > 0 {
        let front = files.drop_last();
        let n = files.len() - 1;
        law_the_newest_is_no_older_than_any(front);
        assert(files[n] == files.last());
        assert forall|k: int| 0 <= k < n implies #[trigger] files[k] == front[k] by {}
        let before = legacy::newest_at(front);
        if before is Some {
            let k = choose|k: int|
                0 <= k < front.len() && !text::starts((#[trigger] front[k]).0@, "."@) && front[k].1 is Some
                    && front[k].1.unwrap().at() == before.unwrap();
            assert(files[k] == front[k]);
        }
        if legacy::newest_at(files) is None {
            assert forall|k: int| 0 <= k < files.len() && !text::starts((#[trigger] files[k]).0@, "."@) implies files[k].1
                is None by {
                if k < n {
                    assert(front[k].1 is None);
                }
            }
        } else {
            assert forall|k: int|
                0 <= k < files.len() && !text::starts((#[trigger] files[k]).0@, "."@) && files[k].1 is Some implies files[k].1.unwrap().at()
                <= legacy::newest_at(files).unwrap() by {
                if k < n {
                    assert(front[k].1.unwrap().at() <= before.unwrap());
                }
            }
            assert(exists|k: int|
                0 <= k < files.len() && !text::starts((#[trigger] files[k]).0@, "."@) && files[k].1 is Some
                    && files[k].1.unwrap().at() == legacy::newest_at(files).unwrap()) by {
                if before is Some && legacy::newest_at(files) == before {
                } else {
                    assert(!text::starts(files[n].0@, "."@) && files[n].1 is Some);
                }
            }
        }
    }
}

/// Whether a folder's name is a number that is an old id.
pub open spec fn under_old_id(name: Seq<char>, old_ids: Seq<i64>, id: i64) -> bool {
    number::signed(name) == Some(id as int) && old_ids.contains(id)
}

/// The folders still under old ids are just those whose names are such numbers, each
/// as often as it is there.
pub proof fn law_the_folders_under_old_ids_are_found(names: Seq<Seq<char>>, old_ids: Seq<i64>)
    ensures
        forall|id: i64, name: Seq<char>| #[trigger]
            legacy::old_dirs(names, old_ids).contains((id, name)) <==> names.contains(name) && under_old_id(
                name,
                old_ids,
                id,
            ),
        legacy::old_dirs(names, old_ids).len() == names.filter(
            |name: Seq<char>| exists|id: i64| #[trigger] under_old_id(name, old_ids, id),
        ).len(),
    decreases names.len(),
{
    reveal(Seq::filter);
    if names.len() > 0 {
        let front = names.drop_last();
        let n = names.len() - 1;
        law_the_folders_under_old_ids_are_found(front, old_ids);
        let before = legacy::old_dirs(front, old_ids);
        let all = legacy::old_dirs(names, old_ids);
        let last = names.last();
        assert(names[n] == last);
        assert forall|id: i64| #[trigger] under_old_id(last, old_ids, id) <==> legacy::old_id(last, old_ids) == Some(
            id,
        ) by {}
        if let Some(id) = legacy::old_id(last, old_ids) {
            assert(under_old_id(last, old_ids, id));
        }
        assert forall|id: i64, name: Seq<char>| #[trigger] all.contains((id, name)) <==> names.contains(name)
            && under_old_id(name, old_ids, id) by {
            if all.contains((id, name)) {
                if before.contains((id, name)) {
                    assert(front.contains(name));
                    assert(names[front.index_of(name)] == name);
                } else {
                    let k = all.index_of((id, name));
                    assert(all[k] == (id, name));
                    if k < before.len() {
                        assert(before[k] == (id, name));
                    }
                    assert(name == last);
                    assert(under_old_id(last, old_ids, id));
                }
            }
            if names.contains(name) && under_old_id(name, old_ids, id) {
                let k = names.index_of(name);
                if k < n {
                    assert(front[k] == name);
                    assert(before.contains((id, name)));
                    assert(all[before.index_of((id, name))] == (id, name));
                } else {
                    assert(all[all.len() - 1] == (id, name));
                }
            }
        }
    }
}

/// Whether a folder of one kind moved from an old id to a new one.
pub open spec fn has_moved(r: (Placing, legacy::Came), states: bool, old: i64, new: i64) -> bool {
    r.0.states == states && r.0.old == old && r.0.new == new && r.1 is Moved
}

/// A folder counts as moved just where some move of it went through, and then to
/// where one did.
pub proof fn law_what_moved_is_what_went_through(results: Seq<(Placing, legacy::Came)>)
    ensures
        ({
            let f = legacy::carried(results);
            &&& forall|k: int, old: i64, new: i64|
                0 <= k < results.len() && #[trigger] has_moved(results[k], false, old, new) ==> f.moved.contains_key(
                    old,
                )
            &&& forall|old: i64| #[trigger]
                f.moved.contains_key(old) ==> exists|k: int|
                    0 <= k < results.len() && has_moved(#[trigger] results[k], false, old, f.moved[old])
            &&& forall|k: int, old: i64, new: i64|
                0 <= k < results.len() && #[trigger] has_moved(results[k], true, old, new)
                    ==> f.states_moved.contains_key(old)
            &&& forall|old: i64| #[trigger]
                f.states_moved.contains_key(old) ==> exists|k: int|
                    0 <= k < results.len() && has_moved(#[trigger] results[k], true, old, f.states_moved[old])
            &&& forall|old: i64| #[trigger]
                f.left.contains_key(old) <==> exists|k: int|
                    0 <= k < results.len() && (#[trigger] results[k]).0.old == old && !(results[k].1 is Moved)
        }),
    decreases results.len(),
{
    if results.len() > 0 {
        let front = results.drop_last();
        let n = results.len() - 1;
        law_what_moved_is_what_went_through(front);
        let b = legacy::carried(front);
        let f = legacy::carried(results);
        let p = results[n].0;
        assert(results[n] == results.last());
        assert forall|k: int, old: i64, new: i64|
            0 <= k < results.len() && #[trigger] has_moved(results[k], false, old, new) implies f.moved.contains_key(
            old,
        ) by {
            if k < n {
                assert(has_moved(front[k], false, old, new));
            }
        }
        assert forall|k: int, old: i64, new: i64|
            0 <= k < results.len() && #[trigger] has_moved(results[k], true, old, new) implies f.states_moved.contains_key(
            old,
        ) by {
            if k < n {
                assert(has_moved(front[k], true, old, new));
            }
        }
        assert forall|old: i64| #[trigger] f.moved.contains_key(old) implies exists|k: int|
            0 <= k < results.len() && has_moved(#[trigger] results[k], false, old, f.moved[old]) by {
            if b.moved.contains_key(old) && b.moved[old] == f.moved[old] {
                let k = choose|k: int|
                    0 <= k < front.len() && has_moved(#[trigger] front[k], false, old, b.moved[old]);
                assert(has_moved(results[k], false, old, f.moved[old]));
            } else {
                assert(has_moved(results[n], false, old, f.moved[old]));
            }
        }
        assert forall|old: i64| #[trigger] f.states_moved.contains_key(old) implies exists|k: int|
            0 <= k < results.len() && has_moved(#[trigger] results[k], true, old, f.states_moved[old]) by {
            if b.states_moved.contains_key(old) && b.states_moved[old] == f.states_moved[old] {
                let k = choose|k: int|
                    0 <= k < front.len() && has_moved(#[trigger] front[k], true, old, b.states_moved[old]);
                assert(has_moved(results[k], true, old, f.states_moved[old]));
            } else {
                assert(has_moved(results[n], true, old, f.states_moved[old]));
            }
        }
        assert forall|old: i64| #[trigger] f.left.contains_key(old) <==> exists|k: int|
            0 <= k < results.len() && (#[trigger] results[k]).0.old == old && !(results[k].1 is Moved) by {
            if f.left.contains_key(old) {
                if b.left.contains_key(old) {
                    let k = choose|k: int|
                        0 <= k < front.len() && (#[trigger] front[k]).0.old == old && !(front[k].1 is Moved);
                    assert(results[k] == front[k]);
                }
            }
            if exists|k: int|
                0 <= k < results.len() && (#[trigger] results[k]).0.old == old && !(results[k].1 is Moved) {
                let k = choose|k: int|
                    0 <= k < results.len() && (#[trigger] results[k]).0.old == old && !(results[k].1 is Moved);
                if k < n {
                    assert(results[k] == front[k]);
                    assert(b.left.contains_key(old));
                }
            }
        }
    }
}

/// The folders that a plan moves are each moved once, to where the plan says; the
/// saves by their old ids and after them the states by theirs.
pub proof fn law_every_planned_move_is_made_once(planned: &Report, r: Vec<Placing>)
    requires
        call_ensures(legacy::moves, (planned,), r),
    ensures
        forall|p: Placing| #[trigger]
            r@.contains(p) <==> (if p.states {
                planned.states_moved@.contains_key(p.old) && planned.states_moved@[p.old] == p.new
            } else {
                planned.moved@.contains_key(p.old) && planned.moved@[p.old] == p.new
            }),
        forall|i: int, j: int|
            0 <= i < j < r@.len() ==> ((#[trigger] r@[j]).states && !(#[trigger] r@[i]).states) || (r@[i].states
                == r@[j].states && r@[i].old < r@[j].old),
{
    let (saves, states) = choose|saves: Seq<(i64, i64)>, states: Seq<(i64, i64)>|
        #![trigger legacy::moves_of(saves, states)]
        legacy::pairs_of(planned@.moved, saves) && legacy::pairs_of(planned@.states_moved, states) && r@
            == legacy::moves_of(saves, states);
    let m = saves.len() as int;
    assert forall|p: Placing| #[trigger] r@.contains(p) <==> (if p.states {
        planned.states_moved@.contains_key(p.old) && planned.states_moved@[p.old] == p.new
    } else {
        planned.moved@.contains_key(p.old) && planned.moved@[p.old] == p.new
    }) by {
        if r@.contains(p) {
            let k = r@.index_of(p);
            assert(r@[k] == p);
            if k < m {
                assert(planned@.moved.contains_key(saves[k].0));
            } else {
                assert(planned@.states_moved.contains_key(states[k - m].0));
            }
        }
        if p.states && planned.states_moved@.contains_key(p.old) && planned.states_moved@[p.old] == p.new {
            assert(planned@.states_moved.contains_key(p.old));
            assert(states.contains((p.old, p.new)));
            let k = states.index_of((p.old, p.new));
            assert(r@[m + k] == p);
        }
        if !p.states && planned.moved@.contains_key(p.old) && planned.moved@[p.old] == p.new {
            assert(planned@.moved.contains_key(p.old));
            assert(saves.contains((p.old, p.new)));
            let k = saves.index_of((p.old, p.new));
            assert(r@[k] == p);
        }
    }
    assert forall|i: int, j: int| 0 <= i < j < r@.len() implies ((#[trigger] r@[j]).states && !(
    #[trigger] r@[i]).states) || (r@[i].states == r@[j].states && r@[i].old < r@[j].old) by {
        if j < m {
            assert(saves[i].0 < saves[j].0);
        } else if i >= m {
            assert(states[i - m].0 < states[j - m].0);
        }
    }
}

/// A record of a device, a game and a file that is kept under an old id which moved
/// is kept under the new one, for the same device and file; any other record stays
/// as it is.
pub proof fn law_a_record_follows_its_game(
    key: &str,
    moved: &std::collections::BTreeMap<i64, i64>,
    old_ids: &Vec<i64>,
    r: Option<(String, bool)>,
    device: Seq<char>,
    rom_id: i64,
    file: Seq<char>,
)
    requires
        call_ensures(legacy::rekey, (key, moved, old_ids), r),
        !device.contains('\0'),
        key@ == device + seq!['\0'] + number::int_text(rom_id as int) + seq!['\0'] + file,
    ensures
        r matches Some((after, changed)) && {
            &&& changed <==> old_ids@.contains(rom_id) && moved@.contains_key(rom_id)
            &&& changed ==> after@ == device + seq!['\0'] + number::int_text(moved@[rom_id] as int) + seq!['\0']
                + file
            &&& !changed ==> after@ == key@
        },
{
    legacy::law_key_comes_apart(device, rom_id as int, file);
    assert(key@ == legacy::key_text(device, rom_id as int, file));
}

} // verus!
