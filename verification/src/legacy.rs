//! Moving saves and states stored under positional game ids to stable ones.
//!
//! A save carries its game's name, because every emulator names it after the
//! ROM file. So each old folder goes to the game whose file has that stem, when
//! exactly one game does. States are named by time, not game, and follow the
//! save folder of the same old id. Anything that does not resolve to a single
//! game is left where it is and reported, never guessed.

use vstd::prelude::*;
use std::collections::BTreeMap;
use crate::crypto;
use crate::number;
use crate::save_store;
use crate::paths;
use crate::table::Table;
use crate::text;

verus! {

/// What becomes of the old folders.
#[derive(Debug)]
pub struct Report {
    /// Old id to new id, for save folders that moved.
    pub moved: BTreeMap<i64, i64>,
    /// Old id to new id, for state folders that moved.
    pub states_moved: BTreeMap<i64, i64>,
    /// Old id to why it stayed.
    pub left: BTreeMap<i64, String>,
}

/// What becomes of the old folders, as a value.
pub struct Fate {
    pub moved: Map<i64, i64>,
    pub states_moved: Map<i64, i64>,
    pub left: Map<i64, Seq<char>>,
}

/// The texts of a map.
pub open spec fn text_map(m: Map<i64, String>) -> Map<i64, Seq<char>> {
    m.map_values(|s: String| s@)
}

impl View for Report {
    type V = Fate;

    open spec fn view(&self) -> Fate {
        Fate { moved: self.moved@, states_moved: self.states_moved@, left: text_map(self.left@) }
    }
}

/// Every old id placed so far is kept in a file of this name, which is also the
/// report.
pub const MARKER: &'static str = ".stable-ids.json";

/// A state goes with the save folder of the same old id only if the two were
/// written within this many nanoseconds of each other.
pub const SAME_SESSION: i128 = 86_400_000_000_000;

/// A moment, counted from the epoch.
#[derive(Debug, Clone, Copy)]
pub struct Moment {
    pub secs: i64,
    pub nanos: u32,
}

impl Moment {
    /// The nanoseconds since the epoch.
    pub open spec fn at(self) -> int {
        self.secs * 1_000_000_000 + self.nanos
    }

    /// The nanoseconds since the epoch.
    pub fn since(&self) -> (r: i128)
        ensures
            r == self.at(),
    {
        self.secs as i128 * 1_000_000_000 + self.nanos as i128
    }
}

/// A file in an old save folder: what it is called there, and the name it has on
/// this machine.
#[derive(Debug)]
pub struct OldFile {
    pub name: String,
    pub local: String,
}

/// An old save folder, and the files in it.
#[derive(Debug)]
pub struct OldSaves {
    pub id: i64,
    pub files: Vec<OldFile>,
}

/// An old folder of states: when the newest of them was written, and when the
/// newest save under the same number was.
#[derive(Debug)]
pub struct OldStates {
    pub id: i64,
    pub newest: Option<Moment>,
    pub newest_save: Option<Moment>,
}

impl View for OldFile {
    type V = (Seq<char>, Seq<char>);

    open spec fn view(&self) -> (Seq<char>, Seq<char>) {
        (self.name@, self.local@)
    }
}

/// The files of a folder, as values.
pub open spec fn files_of(files: Seq<OldFile>) -> Seq<(Seq<char>, Seq<char>)> {
    files.map_values(|f: OldFile| f@)
}

impl View for OldSaves {
    type V = (i64, Seq<(Seq<char>, Seq<char>)>);

    open spec fn view(&self) -> (i64, Seq<(Seq<char>, Seq<char>)>) {
        (self.id, files_of(self.files@))
    }
}

/// The save folders, as values.
pub open spec fn folders(dirs: Seq<OldSaves>) -> Seq<(i64, Seq<(Seq<char>, Seq<char>)>)> {
    dirs.map_values(|d: OldSaves| d@)
}

/// The games, as values.
pub open spec fn named(games: Seq<(i64, String)>) -> Seq<(i64, Seq<char>)> {
    games.map_values(|g: (i64, String)| (g.0, g.1@))
}

/// A file's name without its last extension. A name that starts with its only
/// dot has none.
pub open spec fn before_dot(name: Seq<char>) -> Seq<char> {
    match text::rfind_before(name, '.', name.len() as int) {
        Some(i) => if i == 0 { name } else { name.take(i) },
        None => name,
    }
}

/// The last component of a path, or all of it where that is no name.
pub open spec fn base(local: Seq<char>) -> Seq<char> {
    match paths::name(local) {
        Some(n) => n,
        None => local,
    }
}

/// What a file is named after: everything before the first save-ish ending, or
/// else before the last extension.
pub open spec fn stem(local: Seq<char>) -> Seq<char> {
    let b = base(local);
    match text::find(b, ".state"@) {
        Some(i) => b.take(i),
        None => match text::find(b, ".srm"@) {
            Some(i) => b.take(i),
            None => match text::find(b, ".sav"@) {
                Some(i) => b.take(i),
                None => match text::find(b, ".rtc"@) {
                    Some(i) => b.take(i),
                    None => if paths::name(local) is Some { before_dot(b) } else { b },
                },
            },
        },
    }
}

fn cut_at(t: &Vec<char>, ending: &str) -> (r: Option<String>)
    ensures
        text::opt(r) == (match text::find(t@, ending@) {
            Some(i) => Some(t@.take(i)),
            None => None,
        }),
{
    let p = text::chars_of(ending);
    match text::position_from(t, &p, 0) {
        Some(i) => {
            proof {
                text::lemma_find_from(t@, p@, 0);
                assert(t@.subrange(0, i as int) =~= t@.take(i as int));
            }
            Some(text::part(t, 0, i))
        },
        None => None,
    }
}

/// What a file is named after.
pub fn stem_of(local: &str) -> (r: String)
    ensures
        r@ == stem(local@),
{
    let name = paths::file_name(local);
    let is_name = name.is_some();
    let b: String = match name {
        Some(n) => n,
        None => text::owned(local),
    };
    let t = text::chars_of(&b);
    if let Some(s) = cut_at(&t, ".state") {
        return s;
    }
    if let Some(s) = cut_at(&t, ".srm") {
        return s;
    }
    if let Some(s) = cut_at(&t, ".sav") {
        return s;
    }
    if let Some(s) = cut_at(&t, ".rtc") {
        return s;
    }
    if is_name {
        let n: usize = t.len();
        match text::last_before(&t, '.', n) {
            Some(i) => {
                proof {
                    text::lemma_rfind(t@, '.', n as int);
                }
                if i > 0 {
                    assert(t@.subrange(0, i as int) =~= t@.take(i as int));
                    return text::part(&t, 0, i);
                }
            },
            None => {},
        }
    }
    b
}

/// What a game or a file is found by: its stem, or that in lower case.
pub open spec fn sought(folded: bool, local: Seq<char>) -> Seq<char> {
    if folded {
        crypto::unicode_lower(stem(local))
    } else {
        stem(local)
    }
}

/// The games found by a name.
pub open spec fn matching(games: Seq<(i64, Seq<char>)>, folded: bool, name: Seq<char>) -> Seq<i64>
    decreases games.len(),
{
    if games.len() == 0 {
        Seq::empty()
    } else {
        let before = matching(games.drop_last(), folded, name);
        if sought(folded, games.last().1) == name {
            before.push(games.last().0)
        } else {
            before
        }
    }
}

/// The games a save file can belong to: those with its stem, or, where there is
/// none, those whose stem differs only in case.
pub open spec fn owners(games: Seq<(i64, Seq<char>)>, local: Seq<char>) -> Seq<i64> {
    let exact = matching(games, false, sought(false, local));
    if exact.len() > 0 {
        exact
    } else {
        matching(games, true, sought(true, local))
    }
}

/// Why a save file belongs to no one game.
pub open spec fn trouble(games: Seq<(i64, Seq<char>)>, file: (Seq<char>, Seq<char>)) -> Option<Seq<char>> {
    let n = owners(games, file.1).len();
    if n == 1 {
        None
    } else if n > 1 {
        Some(file.0 + " matches "@ + number::decimal(n) + " games"@)
    } else {
        Some("no game is named like "@ + file.0)
    }
}

/// A sidecar, which names no game.
pub open spec fn hidden(name: Seq<char>) -> bool {
    text::starts(name, "."@)
}

/// Why a folder's files place it nowhere: what is wrong with the last of them
/// that has something wrong.
pub open spec fn why(games: Seq<(i64, Seq<char>)>, files: Seq<(Seq<char>, Seq<char>)>) -> Option<Seq<char>>
    decreases files.len(),
{
    if files.len() == 0 {
        None
    } else if !hidden(files.last().0) && trouble(games, files.last()) is Some {
        trouble(games, files.last())
    } else {
        why(games, files.drop_last())
    }
}

/// The games that a folder's files belong to, one for each file that belongs to
/// just one.
pub open spec fn targets(games: Seq<(i64, Seq<char>)>, files: Seq<(Seq<char>, Seq<char>)>) -> Seq<i64>
    decreases files.len(),
{
    if files.len() == 0 {
        Seq::empty()
    } else {
        let before = targets(games, files.drop_last());
        let found = owners(games, files.last().1);
        if !hidden(files.last().0) && found.len() == 1 {
            before.push(found[0])
        } else {
            before
        }
    }
}

/// Whether all of a list are the same.
pub open spec fn all_same(ids: Seq<i64>) -> bool {
    forall|i: int| 0 <= i < ids.len() ==> #[trigger] ids[i] == ids[0]
}

/// Where a folder goes, or why it stays.
pub open spec fn verdict(games: Seq<(i64, Seq<char>)>, files: Seq<(Seq<char>, Seq<char>)>) -> Result<
    i64,
    Seq<char>,
> {
    let ids = targets(games, files);
    match why(games, files) {
        Some(reason) => Err(reason),
        None => if ids.len() == 0 {
            Err("no save files in it"@)
        } else if all_same(ids) {
            Ok(ids[0])
        } else {
            Err("its files name different games"@)
        },
    }
}

/// What becomes of the save folders.
pub open spec fn placed(games: Seq<(i64, Seq<char>)>, dirs: Seq<(i64, Seq<(Seq<char>, Seq<char>)>)>) -> Fate
    decreases dirs.len(),
{
    if dirs.len() == 0 {
        Fate { moved: Map::empty(), states_moved: Map::empty(), left: Map::empty() }
    } else {
        let before = placed(games, dirs.drop_last());
        match verdict(games, dirs.last().1) {
            Ok(new) => Fate { moved: before.moved.insert(dirs.last().0, new), ..before },
            Err(reason) => Fate { left: before.left.insert(dirs.last().0, reason), ..before },
        }
    }
}

/// Whether two moments are in one session.
pub open spec fn near(a: Moment, b: Moment) -> bool {
    -SAME_SESSION <= a.at() - b.at() <= SAME_SESSION
}

/// Whether a folder of states was written with the saves of the same number.
pub open spec fn together(s: OldStates) -> bool {
    match (s.newest, s.newest_save) {
        (Some(a), Some(b)) => near(a, b),
        _ => false,
    }
}

/// Why states stay behind.
pub open spec fn apart() -> Seq<char> {
    "states, not written near a save of the same old id, so no game to put them with"@
}

/// What becomes of the states, given where the saves go.
pub open spec fn following(fate: Fate, states: Seq<OldStates>) -> Fate
    decreases states.len(),
{
    if states.len() == 0 {
        fate
    } else {
        let before = following(fate, states.drop_last());
        let old = states.last().id;
        if before.moved.contains_key(old) && together(states.last()) {
            Fate { states_moved: before.states_moved.insert(old, before.moved[old]), ..before }
        } else if before.left.contains_key(old) {
            before
        } else {
            Fate { left: before.left.insert(old, apart()), ..before }
        }
    }
}

fn put(m: &mut BTreeMap<i64, i64>, k: i64, v: i64)
    ensures
        final(m)@ == old(m)@.insert(k, v),
{
    let _ = m.insert(k, v);
}

fn put_text(m: &mut BTreeMap<i64, String>, k: i64, v: String)
    ensures
        final(m)@ == old(m)@.insert(k, v),
        text_map(final(m)@) == text_map(old(m)@).insert(k, v@),
{
    let _ = m.insert(k, v);
    assert(text_map(m@) =~= text_map(old(m)@).insert(k, v@));
}

/// A game and what it is found by.
struct Found {
    id: i64,
    stem: String,
    folded: String,
}

spec fn index_of(games: Seq<(i64, Seq<char>)>, index: Seq<Found>) -> bool {
    &&& index.len() == games.len()
    &&& forall|i: int|
        0 <= i < games.len() ==> (#[trigger] index[i]).id == games[i].0 && index[i].stem@ == sought(
            false,
            games[i].1,
        ) && index[i].folded@ == sought(true, games[i].1)
}

fn indexed(games: &Vec<(i64, String)>) -> (r: Vec<Found>)
    ensures
        index_of(named(games@), r@),
{
    let mut out: Vec<Found> = Vec::new();
    let mut i: usize = 0;
    while i < games.len()
        invariant
            i <= games@.len(),
            out@.len() == i,
            forall|k: int|
                0 <= k < i ==> (#[trigger] out@[k]).id == games@[k].0 && out@[k].stem@ == sought(
                    false,
                    games@[k].1@,
                ) && out@[k].folded@ == sought(true, games@[k].1@),
        decreases games@.len() - i,
    {
        let s = stem_of(&games[i].1);
        let f = crypto::lowercase(&s);
        out.push(Found { id: games[i].0, stem: s, folded: f });
        i += 1;
    }
    out
}

fn search(index: &Vec<Found>, folded: bool, name: &str, Ghost(games): Ghost<Seq<(i64, Seq<char>)>>) -> (r: Vec<
    i64,
>)
    requires
        index_of(games, index@),
    ensures
        r@ == matching(games, folded, name@),
{
    let mut out: Vec<i64> = Vec::new();
    let mut i: usize = 0;
    while i < index.len()
        invariant
            index_of(games, index@),
            i <= index@.len(),
            out@ == matching(games.take(i as int), folded, name@),
        decreases index@.len() - i,
    {
        let hit = if folded { text::same(&index[i].folded, name) } else { text::same(&index[i].stem, name) };
        assert(games.take(i + 1).drop_last() =~= games.take(i as int));
        if hit {
            out.push(index[i].id);
        }
        i += 1;
    }
    assert(games.take(i as int) =~= games);
    out
}

fn owners_of(index: &Vec<Found>, local: &str, Ghost(games): Ghost<Seq<(i64, Seq<char>)>>) -> (r: Vec<i64>)
    requires
        index_of(games, index@),
    ensures
        r@ == owners(games, local@),
{
    let s = stem_of(local);
    let exact = search(index, false, &s, Ghost(games));
    if exact.len() > 0 {
        exact
    } else {
        let f = crypto::lowercase(&s);
        search(index, true, &f, Ghost(games))
    }
}

fn verdict_of(index: &Vec<Found>, files: &Vec<OldFile>, Ghost(games): Ghost<Seq<(i64, Seq<char>)>>) -> (r: Result<
    i64,
    String,
>)
    requires
        index_of(games, index@),
    ensures
        match r {
            Ok(id) => verdict(games, files_of(files@)) == Ok::<i64, Seq<char>>(id),
            Err(e) => verdict(games, files_of(files@)) == Err::<i64, Seq<char>>(e@),
        },
{
    let ghost all = files_of(files@);
    let mut reason: Option<String> = None;
    let mut ids: Vec<i64> = Vec::new();
    let mut i: usize = 0;
    while i < files.len()
        invariant
            index_of(games, index@),
            all == files_of(files@),
            i <= files@.len(),
            text::opt(reason) == why(games, all.take(i as int)),
            ids@ == targets(games, all.take(i as int)),
        decreases files@.len() - i,
    {
        let f = &files[i];
        proof {
            assert(all.take(i + 1).drop_last() =~= all.take(i as int));
            assert(all[i as int] == (f.name@, f.local@));
        }
        if !text::starts_with(&f.name, ".") {
            let found = owners_of(index, &f.local, Ghost(games));
            if found.len() == 1 {
                ids.push(found[0]);
            } else if found.len() > 1 {
                let mut w = text::owned(&f.name);
                w.append(" matches ");
                let n = number::decimal_of(found.len() as u128);
                w.append(&n);
                w.append(" games");
                reason = Some(w);
            } else {
                let mut w = text::owned("no game is named like ");
                w.append(&f.name);
                reason = Some(w);
            }
        }
        i += 1;
    }
    assert(all.take(i as int) =~= all);
    if let Some(w) = reason {
        return Err(w);
    }
    if ids.len() == 0 {
        return Err(text::owned("no save files in it"));
    }
    let mut k: usize = 1;
    while k < ids.len()
        invariant
            1 <= k <= ids@.len(),
            all == files_of(files@),
            ids@ == targets(games, all),
            why(games, all) is None,
            forall|j: int| 0 <= j < k ==> #[trigger] ids@[j] == ids@[0],
        decreases ids@.len() - k,
    {
        if ids[k] != ids[0] {
            assert(!all_same(ids@));
            return Err(text::owned("its files name different games"));
        }
        k += 1;
    }
    Ok(ids[0])
}

/// Whether two moments are in one session.
pub fn is_near(a: &Moment, b: &Moment) -> (r: bool)
    ensures
        r == near(*a, *b),
{
    let gap: i128 = a.since() - b.since();
    -SAME_SESSION <= gap && gap <= SAME_SESSION
}

/// A folder that is still under an old id.
#[derive(Debug)]
pub struct OldDir {
    pub id: i64,
    pub name: String,
}

impl save_store::Filed for OldDir {
    open spec fn rom(&self) -> i64 {
        self.id
    }

    open spec fn file(&self) -> Seq<char> {
        self.name@
    }

    fn rom_of(&self) -> (r: i64) {
        self.id
    }

    fn file_of(&self) -> (r: &str) {
        &self.name
    }
}

/// The folders under old ids, as values.
pub open spec fn dirs_of(v: Seq<OldDir>) -> Seq<(i64, Seq<char>)> {
    v.map_values(|d: OldDir| (d.id, d.name@))
}

/// The old id that a folder's name is, if it is one.
pub open spec fn old_id(name: Seq<char>, old_ids: Seq<i64>) -> Option<i64> {
    match number::signed(name) {
        Some(n) => if i64::MIN <= n <= i64::MAX && old_ids.contains(n as i64) {
            Some(n as i64)
        } else {
            None
        },
        None => None,
    }
}

/// The folders among some that are still under an old id.
pub open spec fn old_dirs(names: Seq<Seq<char>>, old_ids: Seq<i64>) -> Seq<(i64, Seq<char>)>
    decreases names.len(),
{
    if names.len() == 0 {
        Seq::empty()
    } else {
        let before = old_dirs(names.drop_last(), old_ids);
        match old_id(names.last(), old_ids) {
            Some(id) => before.push((id, names.last())),
            None => before,
        }
    }
}

/// The folders among some that are still under an old id, in order.
pub fn legacy_dirs(names: &Vec<String>, old_ids: &Vec<i64>) -> (r: Vec<OldDir>)
    ensures
        save_store::in_order(r@),
        dirs_of(r@).to_multiset() == old_dirs(text::texts(names@), old_ids@).to_multiset(),
{
    let ghost all = text::texts(names@);
    let mut out: Vec<OldDir> = Vec::new();
    let mut i: usize = 0;
    assert(dirs_of(out@) =~= old_dirs(all.take(0), old_ids@));
    while i < names.len()
        invariant
            all == text::texts(names@),
            i <= names@.len(),
            save_store::in_order(out@),
            dirs_of(out@).to_multiset() == old_dirs(all.take(i as int), old_ids@).to_multiset(),
        decreases names@.len() - i,
    {
        let ghost before = out@;
        proof {
            assert(all.take(i + 1).drop_last() =~= all.take(i as int));
            assert(all[i as int] == names@[i as int]@);
        }
        if let Some(n) = number::parse_i64(&names[i]) {
            if save_store::holds_id(old_ids, n) {
                let d = OldDir { id: n, name: text::owned(&names[i]) };
                let ghost one = (d.id, d.name@);
                let at: usize = save_store::file_in(&mut out, d);
                proof {
                    broadcast use vstd::seq_lib::group_to_multiset_ensures;

                    assert(dirs_of(out@) =~= dirs_of(before).insert(at as int, one));
                    vstd::seq_lib::to_multiset_insert(dirs_of(before), at as int, one);
                    assert(old_dirs(all.take(i + 1), old_ids@) == old_dirs(all.take(i as int), old_ids@).push(one));
                }
            }
        }
        i += 1;
    }
    assert(all.take(i as int) =~= all);
    out
}

/// The later of two moments.
pub open spec fn later(a: Option<int>, b: Option<int>) -> Option<int> {
    match (a, b) {
        (Some(x), Some(y)) => if y > x {
            b
        } else {
            a
        },
        (None, _) => b,
        (_, None) => a,
    }
}

/// A moment as a number, if there is one.
pub open spec fn moment(m: Option<Moment>) -> Option<int> {
    match m {
        Some(t) => Some(t.at()),
        None => None,
    }
}

/// When the newest of some files was written, sidecars aside.
pub open spec fn newest_at(files: Seq<(String, Option<Moment>)>) -> Option<int>
    decreases files.len(),
{
    if files.len() == 0 {
        None
    } else {
        let before = newest_at(files.drop_last());
        let (name, at) = files.last();
        if text::starts(name@, "."@) {
            before
        } else {
            later(before, moment(at))
        }
    }
}

/// When the newest of some files was written, sidecars aside.
pub fn newest(files: &Vec<(String, Option<Moment>)>) -> (r: Option<Moment>)
    ensures
        moment(r) == newest_at(files@),
{
    let mut out: Option<Moment> = None;
    let mut i: usize = 0;
    while i < files.len()
        invariant
            i <= files@.len(),
            moment(out) == newest_at(files@.take(i as int)),
        decreases files@.len() - i,
    {
        assert(files@.take(i + 1).drop_last() =~= files@.take(i as int));
        if !text::starts_with(&files[i].0, ".") {
            if let Some(t) = files[i].1 {
                let newer = match &out {
                    Some(o) => t.since() > o.since(),
                    None => true,
                };
                if newer {
                    out = Some(t);
                }
            }
        }
        i += 1;
    }
    assert(files@.take(i as int) =~= files@);
    out
}

/// Works out what would move, without moving anything.
///
/// `games` is every game the server lists, as its stable id and the name its file
/// has on this machine.
pub fn plan(saves: &Vec<OldSaves>, states: &Vec<OldStates>, games: &Vec<(i64, String)>) -> (r: Report)
    ensures
        r@ == following(placed(named(games@), folders(saves@)), states@),
{
    let ghost gs = named(games@);
    let ghost all = folders(saves@);
    let index = indexed(games);
    let mut moved: BTreeMap<i64, i64> = BTreeMap::new();
    let mut states_moved: BTreeMap<i64, i64> = BTreeMap::new();
    let mut left: BTreeMap<i64, String> = BTreeMap::new();
    let mut i: usize = 0;
    assert(text_map(left@) =~= Map::<i64, Seq<char>>::empty());
    while i < saves.len()
        invariant
            all == folders(saves@),
            index_of(gs, index@),
            i <= saves@.len(),
            moved@ == placed(gs, all.take(i as int)).moved,
            placed(gs, all.take(i as int)).states_moved == Map::<i64, i64>::empty(),
            text_map(left@) == placed(gs, all.take(i as int)).left,
        decreases saves@.len() - i,
    {
        proof {
            assert(all.take(i + 1).drop_last() =~= all.take(i as int));
            assert(all[i as int] == saves@[i as int]@);
        }
        match verdict_of(&index, &saves[i].files, Ghost(gs)) {
            Ok(new) => put(&mut moved, saves[i].id, new),
            Err(w) => put_text(&mut left, saves[i].id, w),
        }
        i += 1;
    }
    assert(all.take(i as int) =~= all);
    let ghost fate = placed(gs, all);
    let mut k: usize = 0;
    assert(states@.take(0) =~= Seq::empty());
    while k < states.len()
        invariant
            k <= states@.len(),
            moved@ == following(fate, states@.take(k as int)).moved,
            states_moved@ == following(fate, states@.take(k as int)).states_moved,
            text_map(left@) == following(fate, states@.take(k as int)).left,
        decreases states@.len() - k,
    {
        proof {
            assert(states@.take(k + 1).drop_last() =~= states@.take(k as int));
        }
        let s = &states[k];
        let close = match (&s.newest, &s.newest_save) {
            (Some(a), Some(b)) => is_near(a, b),
            _ => false,
        };
        let paired: Option<i64> = match moved.get(&s.id) {
            Some(new) => if close { Some(*new) } else { None },
            None => None,
        };
        match paired {
            Some(new) => put(&mut states_moved, s.id, new),
            None => {
                if !left.contains_key(&s.id) {
                    put_text(
                        &mut left,
                        s.id,
                        text::owned("states, not written near a save of the same old id, so no game to put them with"),
                    );
                }
            },
        }
        k += 1;
    }
    assert(states@.take(k as int) =~= states@);
    Report { moved, states_moved, left }
}

/// What to do about a plan.
#[derive(Debug, Clone, Copy, PartialEq, Eq, Structural)]
pub enum Start {
    /// There is nothing to move and nothing left behind.
    Nothing,
    /// There is nothing to move: the plan is the report.
    Report,
    /// There is something to move.
    Move,
}

/// What to do about a plan, given whether the server lists any game. With nothing
/// to match against, nothing is done at all.
pub fn start(any_games: bool, planned: &Report) -> (r: Start)
    ensures
        r == (if !any_games {
            Start::Nothing
        } else if planned@.moved.dom().is_empty() && planned@.states_moved.dom().is_empty() {
            if planned@.left.dom().is_empty() {
                Start::Nothing
            } else {
                Start::Report
            }
        } else {
            Start::Move
        }),
{
    proof {
        assert(text_map(planned.left@).dom() =~= planned.left@.dom());
    }
    if !any_games {
        return Start::Nothing;
    }
    if planned.moved.is_empty() && planned.states_moved.is_empty() {
        if planned.left.is_empty() {
            Start::Nothing
        } else {
            Start::Report
        }
    } else {
        Start::Move
    }
}

/// One folder to move.
#[derive(Debug, Clone, Copy, PartialEq, Eq, Structural)]
pub struct Placing {
    /// Whether it holds states.
    pub states: bool,
    pub old: i64,
    pub new: i64,
}

/// Whether a list is a map's pairs, in the order of their keys.
pub open spec fn pairs_of(m: Map<i64, i64>, s: Seq<(i64, i64)>) -> bool {
    &&& forall|i: int, j: int| 0 <= i < j < s.len() ==> (#[trigger] s[i]).0 < (#[trigger] s[j]).0
    &&& forall|i: int| 0 <= i < s.len() ==> m.contains_key((#[trigger] s[i]).0) && m[s[i].0] == s[i].1
    &&& forall|k: i64| #[trigger] m.contains_key(k) ==> s.contains((k, m[k]))
}

fn pairs(m: &BTreeMap<i64, i64>) -> (r: Vec<(i64, i64)>)
    ensures
        pairs_of(m@, r@),
{
    let mut out: Vec<(i64, i64)> = Vec::new();
    let ghost all = vstd::std_specs::iter::IteratorSpec::remaining(&m.iter());
    for x in it: m.iter()
        invariant
            it.seq() == all,
            all == vstd::std_specs::iter::IteratorSpec::remaining(&m.iter()),
            out@.len() == it.index(),
            forall|i: int| 0 <= i < out@.len() ==> out@[i] == (*all[i].0, *all[i].1),
    {
        out.push((*x.0, *x.1));
    }
    proof {
        let keys = all.map_values(|kv: (&i64, &i64)| *kv.0);
        assert(vstd::std_specs::btree::increasing_seq(keys));
        assert forall|i: int, j: int| 0 <= i < j < out@.len() implies (#[trigger] out@[i]).0 < (
        #[trigger] out@[j]).0 by {
            assert(keys[i] == out@[i].0 && keys[j] == out@[j].0);
            assert(vstd::std_specs::cmp::OrdSpec::cmp_spec(&keys[i], &keys[j]) is Less);
        }
        assert forall|i: int| 0 <= i < out@.len() implies m@.contains_key((#[trigger] out@[i]).0)
            && m@[out@[i].0] == out@[i].1 by {
            assert(m@.contains_key(*all[i].0));
        }
        assert forall|k: i64| #[trigger] m@.contains_key(k) implies out@.contains((k, m@[k])) by {
            assert(all.contains((&k, &m@[k])));
            let i = choose|i: int| 0 <= i < all.len() && all[i] == (&k, &m@[k]);
            assert(out@[i] == (k, m@[k]));
        }
    }
    out
}

/// The folders to move, as one list: those of saves, then those of states.
pub open spec fn moves_of(saves: Seq<(i64, i64)>, states: Seq<(i64, i64)>) -> Seq<Placing> {
    Seq::new(
        saves.len() + states.len(),
        |i: int|
            if i < saves.len() {
                Placing { states: false, old: saves[i].0, new: saves[i].1 }
            } else {
                Placing {
                    states: true,
                    old: states[i - saves.len()].0,
                    new: states[i - saves.len()].1,
                }
            },
    )
}

/// The folders that a plan moves, in the order they are moved: the saves by their
/// old ids, then the states by theirs.
pub fn moves(planned: &Report) -> (r: Vec<Placing>)
    ensures
        exists|saves: Seq<(i64, i64)>, states: Seq<(i64, i64)>|
            #![trigger moves_of(saves, states)]
            pairs_of(planned@.moved, saves) && pairs_of(planned@.states_moved, states) && r@ == moves_of(
                saves,
                states,
            ),
{
    let saves = pairs(&planned.moved);
    let states = pairs(&planned.states_moved);
    let mut out: Vec<Placing> = Vec::new();
    let mut i: usize = 0;
    while i < saves.len()
        invariant
            i <= saves@.len(),
            out@.len() == i,
            forall|k: int|
                0 <= k < i ==> out@[k] == (Placing { states: false, old: saves@[k].0, new: saves@[k].1 }),
        decreases saves@.len() - i,
    {
        out.push(Placing { states: false, old: saves[i].0, new: saves[i].1 });
        i += 1;
    }
    let mut j: usize = 0;
    while j < states.len()
        invariant
            j <= states@.len(),
            out@.len() == saves@.len() + j,
            forall|k: int|
                0 <= k < out@.len() ==> out@[k] == moves_of(saves@, states@)[k],
        decreases states@.len() - j,
    {
        out.push(Placing { states: true, old: states[j].0, new: states[j].1 });
        j += 1;
    }
    assert(out@ =~= moves_of(saves@, states@));
    out
}

/// What moving a folder's files came to.
#[derive(Debug)]
pub enum Outcome {
    Moved,
    /// Some were already there under the new id, and stayed.
    Clashed(Vec<String>),
    /// It failed, for this reason.
    Failed(String),
}

/// What moving a folder's files came to, as a value.
pub enum Came {
    Moved,
    Clashed(Seq<Seq<char>>),
    Failed(Seq<char>),
}

impl View for Outcome {
    type V = Came;

    open spec fn view(&self) -> Came {
        match self {
            Outcome::Moved => Came::Moved,
            Outcome::Clashed(names) => Came::Clashed(text::texts(names@)),
            Outcome::Failed(e) => Came::Failed(e@),
        }
    }
}

/// What became of each folder, as values.
pub open spec fn results_of(results: Seq<(Placing, Outcome)>) -> Seq<(Placing, Came)> {
    results.map_values(|r: (Placing, Outcome)| (r.0, r.1@))
}

/// The files of a folder: which move, and which stay because the new folder has
/// one of that name.
pub open spec fn staying(files: Seq<(Seq<char>, bool)>, taken: bool) -> Seq<Seq<char>>
    decreases files.len(),
{
    if files.len() == 0 {
        Seq::empty()
    } else {
        let before = staying(files.drop_last(), taken);
        if files.last().1 == taken {
            before.push(files.last().0)
        } else {
            before
        }
    }
}

/// The files, as values.
pub open spec fn entries_of(files: Seq<(String, bool)>) -> Seq<(Seq<char>, bool)> {
    files.map_values(|f: (String, bool)| (f.0@, f.1))
}

/// What moving one folder's files into another does: the files to move, and the
/// names that are taken there already. The old folder goes too, where no name is
/// taken.
pub fn merge_into(files: &Vec<(String, bool)>) -> (r: (Vec<String>, Vec<String>))
    ensures
        text::texts(r.0@) == staying(entries_of(files@), false),
        text::texts(r.1@) == staying(entries_of(files@), true),
{
    let ghost all = entries_of(files@);
    let mut go: Vec<String> = Vec::new();
    let mut stay: Vec<String> = Vec::new();
    let mut i: usize = 0;
    assert(text::texts(go@) =~= Seq::empty());
    while i < files.len()
        invariant
            all == entries_of(files@),
            i <= files@.len(),
            text::texts(go@) == staying(all.take(i as int), false),
            text::texts(stay@) == staying(all.take(i as int), true),
        decreases files@.len() - i,
    {
        let ghost g = go@;
        let ghost s = stay@;
        proof {
            assert(all.take(i + 1).drop_last() =~= all.take(i as int));
            assert(all[i as int] == (files@[i as int].0@, files@[i as int].1));
        }
        let n = text::owned(&files[i].0);
        if files[i].1 {
            stay.push(n);
            assert(text::texts(stay@) =~= text::texts(s).push(n@));
        } else {
            go.push(n);
            assert(text::texts(go@) =~= text::texts(g).push(n@));
        }
        i += 1;
    }
    assert(all.take(i as int) =~= all);
    (go, stay)
}

/// What a folder holds, in a report.
pub open spec fn what(states: bool) -> Seq<char> {
    if states {
        "states"@
    } else {
        "saves"@
    }
}

/// What became of the folders that were to move.
pub open spec fn carried(results: Seq<(Placing, Came)>) -> Fate
    decreases results.len(),
{
    if results.len() == 0 {
        Fate { moved: Map::empty(), states_moved: Map::empty(), left: Map::empty() }
    } else {
        let before = carried(results.drop_last());
        let p = results.last().0;
        match results.last().1 {
            Came::Moved => if p.states {
                Fate { states_moved: before.states_moved.insert(p.old, p.new), ..before }
            } else {
                Fate { moved: before.moved.insert(p.old, p.new), ..before }
            },
            Came::Clashed(names) => Fate {
                left: before.left.insert(
                    p.old,
                    what(p.states) + " already under "@ + number::int_text(p.new as int) + ": "@ + text::join(
                        names,
                        ", "@,
                    ),
                ),
                ..before
            },
            Came::Failed(e) => Fate {
                left: before.left.insert(p.old, what(p.states) + " could not move: "@ + e),
                ..before
            },
        }
    }
}

/// The report of a start: what moved, and why the rest stayed. A reason met while
/// moving stands before the plan's own.
pub fn settled(results: &Vec<(Placing, Outcome)>, planned: &Report) -> (r: Report)
    ensures
        r@.moved == carried(results_of(results@)).moved,
        r@.states_moved == carried(results_of(results@)).states_moved,
        r@.left == planned@.left.union_prefer_right(carried(results_of(results@)).left),
{
    let ghost all = results_of(results@);
    let mut moved: BTreeMap<i64, i64> = BTreeMap::new();
    let mut states_moved: BTreeMap<i64, i64> = BTreeMap::new();
    let mut left: BTreeMap<i64, String> = planned.left.clone();
    let mut i: usize = 0;
    assert(text_map(left@) =~= planned@.left.union_prefer_right(Map::<i64, Seq<char>>::empty()));
    while i < results.len()
        invariant
            all == results_of(results@),
            i <= results@.len(),
            moved@ == carried(all.take(i as int)).moved,
            states_moved@ == carried(all.take(i as int)).states_moved,
            text_map(left@) == planned@.left.union_prefer_right(carried(all.take(i as int)).left),
        decreases results@.len() - i,
    {
        let p = &results[i].0;
        let ghost before = text_map(left@);
        let ghost done = carried(all.take(i as int)).left;
        proof {
            assert(all.take(i + 1).drop_last() =~= all.take(i as int));
            assert(all[i as int] == (results@[i as int].0, results@[i as int].1@));
        }
        match &results[i].1 {
            Outcome::Moved => {
                if p.states {
                    put(&mut states_moved, p.old, p.new);
                } else {
                    put(&mut moved, p.old, p.new);
                }
            },
            Outcome::Clashed(names) => {
                let mut w = if p.states { text::owned("states") } else { text::owned("saves") };
                w.append(" already under ");
                let n = number::text_of(p.new);
                w.append(&n);
                w.append(": ");
                let l = text::joined(names, ", ");
                w.append(&l);
                let ghost said = w@;
                put_text(&mut left, p.old, w);
                assert(text_map(left@) =~= planned@.left.union_prefer_right(done.insert(p.old, said)));
            },
            Outcome::Failed(e) => {
                let mut w = if p.states { text::owned("states") } else { text::owned("saves") };
                w.append(" could not move: ");
                w.append(e);
                let ghost said = w@;
                put_text(&mut left, p.old, w);
                assert(text_map(left@) =~= planned@.left.union_prefer_right(done.insert(p.old, said)));
            },
        }
        i += 1;
    }
    assert(all.take(i as int) =~= all);
    Report { moved, states_moved, left }
}

fn extended(a: &BTreeMap<i64, i64>, b: &BTreeMap<i64, i64>) -> (r: BTreeMap<i64, i64>)
    ensures
        r@ == a@.union_prefer_right(b@),
{
    let ps = pairs(b);
    let mut out = a.clone();
    let mut i: usize = 0;
    while i < ps.len()
        invariant
            i <= ps@.len(),
            pairs_of(b@, ps@),
            forall|k: i64|
                #[trigger] out@.contains_key(k) <==> a@.contains_key(k) || exists|j: int|
                    0 <= j < i && (#[trigger] ps@[j]).0 == k,
            forall|j: int| 0 <= j < i ==> out@[(#[trigger] ps@[j]).0] == ps@[j].1,
            forall|k: i64|
                a@.contains_key(k) && !(exists|j: int| 0 <= j < i && (#[trigger] ps@[j]).0 == k) ==> #[trigger] out@[k]
                    == a@[k],
        decreases ps@.len() - i,
    {
        let ghost before = out@;
        put(&mut out, ps[i].0, ps[i].1);
        proof {
            assert forall|k: i64| #[trigger] out@.contains_key(k) <==> a@.contains_key(k) || exists|j: int|
                0 <= j < i + 1 && (#[trigger] ps@[j]).0 == k by {
                assert(before.contains_key(k) <==> a@.contains_key(k) || exists|j: int|
                    0 <= j < i && (#[trigger] ps@[j]).0 == k);
                if k == ps@[i as int].0 {
                    assert(out@.contains_key(k));
                } else {
                    assert(out@.contains_key(k) == before.contains_key(k));
                }
            }
        }
        i += 1;
    }
    proof {
        let want = a@.union_prefer_right(b@);
        assert forall|k: i64| #[trigger] out@.contains_key(k) == want.contains_key(k) by {
            if b@.contains_key(k) {
                let j = choose|j: int| 0 <= j < ps@.len() && ps@[j] == (k, b@[k]);
                assert(ps@[j].0 == k);
            }
        }
        assert forall|k: i64| #[trigger] out@.contains_key(k) implies out@[k] == want[k] by {
            if b@.contains_key(k) {
                let j = choose|j: int| 0 <= j < ps@.len() && ps@[j] == (k, b@[k]);
                assert(out@[ps@[j].0] == ps@[j].1);
            } else {
                assert(!(exists|j: int| 0 <= j < i && (#[trigger] ps@[j]).0 == k));
            }
        }
        assert(out@ =~= want);
    }
    out
}

fn without(left: &BTreeMap<i64, String>, gone: &BTreeMap<i64, i64>) -> (r: BTreeMap<i64, String>)
    ensures
        r@ == left@.remove_keys(gone@.dom()),
{
    let ps = pairs(gone);
    let mut out = left.clone();
    let mut i: usize = 0;
    while i < ps.len()
        invariant
            i <= ps@.len(),
            pairs_of(gone@, ps@),
            forall|k: i64|
                #[trigger] out@.contains_key(k) <==> left@.contains_key(k) && !(exists|j: int|
                    0 <= j < i && (#[trigger] ps@[j]).0 == k),
            forall|k: i64| #[trigger] out@.contains_key(k) ==> out@[k] == left@[k],
        decreases ps@.len() - i,
    {
        let ghost before = out@;
        let _ = out.remove(&ps[i].0);
        proof {
            assert(out@ =~= before.remove(ps@[i as int].0));
            assert forall|k: i64| #[trigger] out@.contains_key(k) <==> left@.contains_key(k) && !(exists|j: int|
                0 <= j < i + 1 && (#[trigger] ps@[j]).0 == k) by {
                assert(before.contains_key(k) <==> left@.contains_key(k) && !(exists|j: int|
                    0 <= j < i && (#[trigger] ps@[j]).0 == k));
                assert(out@.contains_key(k) <==> before.contains_key(k) && k != ps@[i as int].0);
            }
        }
        i += 1;
    }
    proof {
        let want = left@.remove_keys(gone@.dom());
        assert forall|k: i64| #[trigger] out@.contains_key(k) == want.contains_key(k) by {
            if gone@.contains_key(k) {
                let j = choose|j: int| 0 <= j < ps@.len() && ps@[j] == (k, gone@[k]);
                assert(ps@[j].0 == k);
            }
        }
        assert(out@ =~= want);
    }
    out
}

/// Every move ever made, with a start's own added to it. What moved at any start
/// has left nothing behind.
pub open spec fn with_done(all: Fate, done: Fate) -> Fate {
    let moved = all.moved.union_prefer_right(done.moved);
    let states_moved = all.states_moved.union_prefer_right(done.states_moved);
    Fate {
        moved,
        states_moved,
        left: done.left.remove_keys(moved.dom()).remove_keys(states_moved.dom()),
    }
}

/// Adds a start's report to every move made before it.
pub fn accumulated(all: &Report, done: &Report) -> (r: Report)
    ensures
        r@ == with_done(all@, done@),
{
    let moved = extended(&all.moved, &done.moved);
    let states_moved = extended(&all.states_moved, &done.states_moved);
    let some = without(&done.left, &moved);
    let left = without(&some, &states_moved);
    assert(text_map(left@) =~= with_done(all@, done@).left);
    Report { moved, states_moved, left }
}

/// The key of a record of agreement: a device, a game's id and a file.
pub open spec fn key_parts(key: Seq<char>) -> Option<(Seq<char>, Seq<char>, Seq<char>)> {
    match text::cut(key, '\0') {
        Some((device, tail)) => match text::cut(tail, '\0') {
            Some((rom, file)) => Some((device, rom, file)),
            None => None,
        },
        None => None,
    }
}

/// The key of a record, made of its parts.
pub open spec fn key_text(device: Seq<char>, rom: int, file: Seq<char>) -> Seq<char> {
    device + seq!['\0'] + number::int_text(rom) + seq!['\0'] + file
}

/// The id that a record is under, where its key reads.
pub open spec fn key_id(key: Seq<char>) -> Option<int> {
    match key_parts(key) {
        Some((device, rom, file)) => match number::signed(rom) {
            Some(n) => if i64::MIN <= n <= i64::MAX {
                Some(n)
            } else {
                None
            },
            None => None,
        },
        None => None,
    }
}

/// Whether a record moves to a new id.
pub open spec fn rekeys(key: Seq<char>, moved: Map<i64, i64>, old_ids: Seq<i64>) -> bool {
    match key_id(key) {
        Some(n) => old_ids.contains(n as i64) && moved.contains_key(n as i64),
        None => false,
    }
}

/// The key that a record has afterwards. One whose key does not read is dropped.
/// One under an old id that has not moved is kept for a later start.
pub open spec fn rekeyed(key: Seq<char>, moved: Map<i64, i64>, old_ids: Seq<i64>) -> Option<Seq<char>> {
    match key_id(key) {
        None => None,
        Some(n) => if rekeys(key, moved, old_ids) {
            let parts = key_parts(key).unwrap();
            Some(key_text(parts.0, moved[n as i64] as int, parts.2))
        } else {
            Some(key)
        },
    }
}

/// How many records move.
pub open spec fn moving(pairs: Seq<(String, String)>, moved: Map<i64, i64>, old_ids: Seq<i64>) -> nat
    decreases pairs.len(),
{
    if pairs.len() == 0 {
        0
    } else {
        moving(pairs.drop_last(), moved, old_ids) + if rekeys(pairs.last().0@, moved, old_ids) {
            1nat
        } else {
            0nat
        }
    }
}

fn in_list(ids: &Vec<i64>, id: i64) -> (r: bool)
    ensures
        r == ids@.contains(id),
{
    let mut i: usize = 0;
    while i < ids.len()
        invariant
            i <= ids@.len(),
            forall|k: int| 0 <= k < i ==> ids@[k] != id,
        decreases ids@.len() - i,
    {
        if ids[i] == id {
            return true;
        }
        i += 1;
    }
    false
}

/// The key that a record has afterwards, and whether it moved.
pub fn rekey(key: &str, moved: &BTreeMap<i64, i64>, old_ids: &Vec<i64>) -> (r: Option<(String, bool)>)
    ensures
        match r {
            Some((k, changed)) => rekeyed(key@, moved@, old_ids@) == Some(k@) && changed == rekeys(
                key@,
                moved@,
                old_ids@,
            ),
            None => rekeyed(key@, moved@, old_ids@) is None,
        },
{
    let (device, tail) = match text::split_once(key, '\0') {
        Some(p) => p,
        None => {
            return None;
        },
    };
    let (rom, file) = match text::split_once(&tail, '\0') {
        Some(p) => p,
        None => {
            return None;
        },
    };
    let id: i64 = match number::parse_i64(&rom) {
        Some(n) => n,
        None => {
            return None;
        },
    };
    if !in_list(old_ids, id) {
        return Some((text::owned(key), false));
    }
    match moved.get(&id) {
        Some(new) => {
            let mut out = device;
            out.push('\0');
            let n = number::text_of(*new);
            out.append(&n);
            out.push('\0');
            out.append(&file);
            assert(out@ =~= key_text(device@, *new as int, file@));
            Some((out, true))
        },
        None => Some((text::owned(key), false)),
    }
}

/// Whether a record's value is one that was kept under some key that becomes its
/// own.
pub open spec fn kept_from(
    pairs: Seq<(String, String)>,
    moved: Map<i64, i64>,
    old_ids: Seq<i64>,
    key: Seq<char>,
    value: Seq<char>,
) -> bool {
    exists|i: int|
        0 <= i < pairs.len() && rekeyed((#[trigger] pairs[i]).0@, moved, old_ids) == Some(key)
            && pairs[i].1@ == value
}

/// Moves the records of agreement, kept under keys of a device, a game's id and a
/// file, to the new ids. Says how many moved.
///
/// Where a moved record meets one that is there already, one of the two stays.
pub fn remap_seen(
    seen: &mut Table<String, String>,
    moved: &BTreeMap<i64, i64>,
    old_ids: &Vec<i64>,
) -> (r: usize)
    requires
        old(seen).wf(),
    ensures
        final(seen).wf(),
        r == moving(old(seen).pairs(), moved@, old_ids@),
        forall|i: int|
            0 <= i < old(seen).pairs().len() ==> match rekeyed(
                (#[trigger] old(seen).pairs()[i]).0@,
                moved@,
                old_ids@,
            ) {
                Some(k) => final(seen)@.contains_key(k),
                None => true,
            },
        forall|k: Seq<char>|
            #[trigger] final(seen)@.contains_key(k) ==> kept_from(
                old(seen).pairs(),
                moved@,
                old_ids@,
                k,
                final(seen)@[k]@,
            ),
{
    let mut out: Table<String, String> = Table::new();
    let mut changed: usize = 0;
    let mut i: usize = 0;
    let ghost all = seen.pairs();
    while i < seen.entries().len()
        invariant
            all == seen.pairs(),
            i <= all.len(),
            changed <= i,
            changed == moving(all.take(i as int), moved@, old_ids@),
            out.wf(),
            forall|j: int|
                0 <= j < i ==> match rekeyed((#[trigger] all[j]).0@, moved@, old_ids@) {
                    Some(k) => out@.contains_key(k),
                    None => true,
                },
            forall|k: Seq<char>|
                #[trigger] out@.contains_key(k) ==> kept_from(all, moved@, old_ids@, k, out@[k]@),
        decreases all.len() - i,
    {
        let entry = &seen.entries()[i];
        let ghost before = out@;
        proof {
            assert(all.take(i + 1).drop_last() =~= all.take(i as int));
        }
        match rekey(&entry.0, moved, old_ids) {
            Some((k, moves)) => {
                if moves {
                    changed += 1;
                }
                let ghost key = k@;
                let v = text::owned(&entry.1);
                let ghost value = v@;
                out.insert(k, v);
                proof {
                    assert(kept_from(all, moved@, old_ids@, key, value)) by {
                        assert(rekeyed(all[i as int].0@, moved@, old_ids@) == Some(key));
                    }
                    assert forall|x: Seq<char>| #[trigger] out@.contains_key(x) implies kept_from(
                        all,
                        moved@,
                        old_ids@,
                        x,
                        out@[x]@,
                    ) by {
                        if x != key {
                            assert(before.contains_key(x));
                        }
                    }
                }
            },
            None => {},
        }
        i += 1;
    }
    assert(all.take(i as int) =~= all);
    *seen = out;
    changed
}

proof fn lemma_placed_files(games: Seq<(i64, Seq<char>)>, files: Seq<(Seq<char>, Seq<char>)>, i: int)
    requires
        why(games, files) is None,
        0 <= i < files.len(),
        !hidden(files[i].0),
    ensures
        owners(games, files[i].1).len() == 1,
        targets(games, files).contains(owners(games, files[i].1)[0]),
    decreases files.len(),
{
    if i < files.len() - 1 {
        lemma_placed_files(games, files.drop_last(), i);
        let before = targets(games, files.drop_last());
        let id = owners(games, files[i].1)[0];
        let k = choose|k: int| 0 <= k < before.len() && before[k] == id;
        assert(targets(games, files)[k] == id);
    } else {
        let all = targets(games, files);
        assert(all[all.len() - 1] == owners(games, files[i].1)[0]);
    }
}

/// Nothing is guessed: a folder goes to a game only where each of its files is
/// named after that game and after no other.
pub proof fn law_a_save_goes_to_the_game_it_is_named_after(
    games: Seq<(i64, Seq<char>)>,
    files: Seq<(Seq<char>, Seq<char>)>,
    new: i64,
)
    requires
        verdict(games, files) == Ok::<i64, Seq<char>>(new),
    ensures
        forall|i: int|
            0 <= i < files.len() && !hidden((#[trigger] files[i]).0) ==> owners(games, files[i].1) == seq![new],
{
    assert forall|i: int| 0 <= i < files.len() && !hidden((#[trigger] files[i]).0) implies owners(games, files[i].1)
        == seq![new] by {
        lemma_placed_files(games, files, i);
        let ids = targets(games, files);
        let id = owners(games, files[i].1)[0];
        let k = choose|k: int| 0 <= k < ids.len() && ids[k] == id;
        assert(ids[k] == ids[0]);
        assert(owners(games, files[i].1) =~= seq![new]);
    }
}

/// The states of an old id go only where its saves go.
pub proof fn law_states_follow_saves(fate: Fate, states: Seq<OldStates>)
    requires
        fate.states_moved == Map::<i64, i64>::empty(),
    ensures
        following(fate, states).moved == fate.moved,
        forall|old: i64|
            #[trigger] following(fate, states).states_moved.contains_key(old) ==> fate.moved.contains_key(old)
                && following(fate, states).states_moved[old] == fate.moved[old],
    decreases states.len(),
{
    if states.len() > 0 {
        law_states_follow_saves(fate, states.drop_last());
        let before = following(fate, states.drop_last());
        assert forall|old: i64| #[trigger]
            following(fate, states).states_moved.contains_key(old) implies fate.moved.contains_key(old)
            && following(fate, states).states_moved[old] == fate.moved[old] by {
            if old != states.last().id {
                assert(before.states_moved.contains_key(old));
            } else if before.states_moved.contains_key(old) {
            }
        }
    }
}

/// A key made of a device, an id and a file comes apart into them.
pub proof fn law_key_comes_apart(device: Seq<char>, rom: int, file: Seq<char>)
    requires
        !device.contains('\0'),
        i64::MIN <= rom <= i64::MAX,
    ensures
        key_parts(key_text(device, rom, file)) == Some((device, number::int_text(rom), file)),
        key_id(key_text(device, rom, file)) == Some(rom),
{
    let n = number::int_text(rom);
    number::lemma_int_text_plain(rom);
    number::law_number_text_reads_back(rom);
    if n.contains('\0') {
        let i = choose|i: int| 0 <= i < n.len() && n[i] == '\0';
        assert(number::digit_value(n[i]) is Some || n[i] == '-');
    }
    let tail = n + seq!['\0'] + file;
    assert(key_text(device, rom, file) =~= device + seq!['\0'] + tail);
    text::lemma_cut_joined(device, '\0', tail);
    text::lemma_cut_joined(n, '\0', file);
}

/// Moving the records again moves none: a record that moved, or stayed, stays,
/// as long as no new id is an old one.
pub proof fn law_remapping_again_moves_nothing(key: Seq<char>, moved: Map<i64, i64>, old_ids: Seq<i64>)
    requires
        forall|old: i64| #[trigger] moved.contains_key(old) ==> !old_ids.contains(moved[old]),
    ensures
        match rekeyed(key, moved, old_ids) {
            Some(k) => rekeyed(k, moved, old_ids) == Some(k) && !rekeys(k, moved, old_ids),
            None => true,
        },
{
    if let Some(n) = key_id(key) {
        if rekeys(key, moved, old_ids) {
            let parts = key_parts(key).unwrap();
            text::lemma_cut_first(key, '\0');
            law_key_comes_apart(parts.0, moved[n as i64] as int, parts.2);
        }
    }
}

} // verus!
