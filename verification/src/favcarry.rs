//! Carrying a stars plan out, as it was shown.
//!
//! The server goes first for each collection. If it refuses, that collection is
//! left entirely alone and its baseline is not moved, so the next run works the
//! same moves out again: a failed sync is a retry rather than a silent divergence.

use vstd::prelude::*;
use std::collections::BTreeSet;
use crate::disk;
use crate::disk::Disk;
use crate::eslist;
use crate::eslist::CollectionFile;
use crate::failure::Failure;
use crate::favmap;
use crate::favmap::{EsPaths, Known};
use crate::favrun;
use crate::favrun::{Item, Plan};
use crate::favsync;
use crate::favsync::{Baseline, Move};
use crate::gamelist;
use crate::gamelist::Gamelist;
use crate::lines;
use crate::number;
use crate::order;
use crate::path_set;
use crate::paths;
use crate::text;

verus! {

// ---------------------------------------------------------------------------
// What is agreed on
// ---------------------------------------------------------------------------

/// What was agreed on for each list, as values.
pub open spec fn sets(m: Map<Seq<char>, BTreeSet<i64>>) -> Map<Seq<char>, Set<i64>> {
    m.map_values(|s: BTreeSet<i64>| s@)
}

/// What is agreed on once some agreements are written down.
pub open spec fn recorded(
    m: Map<Seq<char>, Set<i64>>,
    already: Seq<(Seq<char>, Set<i64>)>,
) -> Map<Seq<char>, Set<i64>>
    decreases already.len(),
{
    if already.len() == 0 {
        m
    } else {
        recorded(m, already.drop_last()).insert(already.last().0, already.last().1)
    }
}

/// Whether writing some agreements down changes what is agreed on.
pub open spec fn news(m: Map<Seq<char>, Set<i64>>, already: Seq<(Seq<char>, Set<i64>)>) -> bool
    decreases already.len(),
{
    if already.len() == 0 {
        false
    } else {
        let before = recorded(m, already.drop_last());
        let (id, agreed) = already.last();
        news(m, already.drop_last()) || !before.contains_key(id) || before[id] != agreed
    }
}

fn same_set(a: &BTreeSet<i64>, b: &BTreeSet<i64>) -> (r: bool)
    ensures
        r == (a@ == b@),
{
    let xs = favsync::listed(a);
    let ys = favsync::listed(b);
    let mut i: usize = 0;
    while i < xs.len()
        invariant
            favsync::listing(a@, xs@),
            i <= xs@.len(),
            forall|k: int| 0 <= k < i ==> b@.contains(#[trigger] xs@[k]),
        decreases xs@.len() - i,
    {
        if !b.contains(&xs[i]) {
            assert(a@.contains(xs@[i as int]));
            return false;
        }
        i += 1;
    }
    let mut j: usize = 0;
    while j < ys.len()
        invariant
            favsync::listing(b@, ys@),
            j <= ys@.len(),
            forall|k: int| 0 <= k < j ==> a@.contains(#[trigger] ys@[k]),
        decreases ys@.len() - j,
    {
        if !a.contains(&ys[j]) {
            assert(b@.contains(ys@[j as int]));
            return false;
        }
        j += 1;
    }
    proof {
        assert forall|x: i64| a@.contains(x) == b@.contains(x) by {
            if a@.contains(x) {
                assert(xs@.contains(x));
                let k = choose|k: int| 0 <= k < xs@.len() && xs@[k] == x;
                assert(b@.contains(xs@[k]));
            }
            if b@.contains(x) {
                assert(ys@.contains(x));
                let k = choose|k: int| 0 <= k < ys@.len() && ys@[k] == x;
                assert(a@.contains(ys@[k]));
            }
        }
        assert(a@ =~= b@);
    }
    true
}

/// Writes down what the lists that already agree agree on. Says whether the
/// baseline changed, so that a caller knows whether to save it.
///
/// Safe from a look as well as a run: both sides already hold this.
pub fn record_agreement(plan: &Plan, baseline: &mut Baseline) -> (r: bool)
    requires
        old(baseline).agreed.wf(),
    ensures
        final(baseline).agreed.wf(),
        sets(final(baseline).agreed@) == recorded(sets(old(baseline).agreed@), plan@.already),
        r == news(sets(old(baseline).agreed@), plan@.already),
{
    let ghost all = plan@.already;
    let ghost start = sets(baseline.agreed@);
    let mut changed = false;
    let mut i: usize = 0;
    while i < plan.already.len()
        invariant
            all == plan@.already,
            i <= plan.already@.len(),
            baseline.agreed.wf(),
            sets(baseline.agreed@) == recorded(start, all.take(i as int)),
            changed == news(start, all.take(i as int)),
        decreases plan.already@.len() - i,
    {
        let ghost before = baseline.agreed@;
        let ghost n = i as int;
        let id = &plan.already[i].0;
        let agreed = &plan.already[i].1;
        proof {
            assert(all.take(n + 1).drop_last() =~= all.take(n));
            assert(all[n] == (id@, agreed@));
            assert(sets(before).contains_key(id@) == before.contains_key(id@));
        }
        let same = match baseline.agreed.get(id) {
            Some(s) => same_set(s, agreed),
            None => false,
        };
        if !same {
            let set = agreed.clone();
            let ghost value = set@;
            baseline.agreed.insert(text::owned(id), set);
            changed = true;
            assert(sets(baseline.agreed@) =~= sets(before).insert(id@, value));
        } else {
            assert(sets(before).insert(id@, agreed@) =~= sets(before));
        }
        i += 1;
    }
    assert(all.take(i as int) =~= all);
    changed
}

/// A collection's own agreement, written down.
fn record_item(item: &Item, baseline: &mut Baseline)
    requires
        old(baseline).agreed.wf(),
    ensures
        final(baseline).agreed.wf(),
        sets(final(baseline).agreed@) == sets(old(baseline).agreed@).insert(item@.id, item@.agreed),
{
    let ghost before = baseline.agreed@;
    let set = item.agreed.clone();
    let ghost value = set@;
    baseline.agreed.insert(text::owned(&item.id), set);
    assert(sets(baseline.agreed@) =~= sets(before).insert(item@.id, value));
}

// ---------------------------------------------------------------------------
// The handheld's half
// ---------------------------------------------------------------------------

/// A file to write, and its text.
#[derive(Debug)]
pub struct FileWrite {
    pub path: String,
    pub text: String,
}

/// The files to write, as values.
pub open spec fn writes(v: Seq<FileWrite>) -> Seq<(Seq<char>, Seq<char>)> {
    v.map_values(|w: FileWrite| (w.path@, w.text@))
}

/// What the handheld's half of an item comes to: the files to write, in order, and
/// what stopped it after them, if something did.
#[derive(Debug)]
pub struct HereWork {
    pub writes: Vec<FileWrite>,
    pub stopped: Option<Failure>,
}

/// The chain of a failure, where there is one.
pub open spec fn chain(e: Option<Failure>) -> Option<Seq<Seq<char>>> {
    match e {
        Some(f) => Some(f@),
        None => None,
    }
}

/// The game of a number; of two with one number the later.
pub open spec fn card_of(known: Seq<favmap::OnCard>, id: i64) -> Option<favmap::OnCard>
    decreases known.len(),
{
    if known.len() == 0 {
        None
    } else if known.last().rom_id == id {
        Some(known.last())
    } else {
        card_of(known.drop_last(), id)
    }
}

/// The games to star and unstar on the card, with which of the two, in the order
/// of the moves.
pub open spec fn wanted(moves: Seq<Move>, known: Seq<favmap::OnCard>) -> Seq<(favmap::OnCard, bool)>
    decreases moves.len(),
{
    if moves.len() == 0 {
        Seq::empty()
    } else {
        let before = wanted(moves.drop_last(), known);
        let m = moves.last();
        match card_of(known, favsync::game_of(m)) {
            Some(k) => if favsync::on_server(m) {
                before
            } else {
                before.push((k, m is StarHere))
            },
            None => before,
        }
    }
}

/// The wanted games of a folder, by their paths inside it.
pub open spec fn wanted_in(ws: Seq<(favmap::OnCard, bool)>, folder: Seq<char>) -> Seq<(Seq<char>, bool)>
    decreases ws.len(),
{
    if ws.len() == 0 {
        Seq::empty()
    } else {
        let before = wanted_in(ws.drop_last(), folder);
        if ws.last().0.folder == folder {
            before.push((favmap::inside(ws.last().0), ws.last().1))
        } else {
            before
        }
    }
}

/// A gamelist after some games were starred or unstarred in turn, and whether
/// anything moved.
pub open spec fn starred(t: Seq<char>, files: Seq<(Seq<char>, bool)>) -> (Seq<char>, bool)
    decreases files.len(),
{
    if files.len() == 0 {
        (t, false)
    } else {
        let (before, moved) = starred(t, files.drop_last());
        match gamelist::star(before, files.last().0, files.last().1) {
            Some(after) => (after, true),
            None => (before, moved),
        }
    }
}

/// What an empty gamelist says.
pub open spec fn no_games() -> Seq<char> {
    "<?xml version=\"1.0\"?>\n<gameList>\n</gameList>\n"@
}

/// What is written to a folder's gamelist, if something is. A system that has none
/// gets one.
pub open spec fn folder_write(
    seen: disk::Seen,
    path: Seq<char>,
    files: Seq<(Seq<char>, bool)>,
) -> Result<Option<(Seq<char>, Seq<char>)>, Seq<Seq<char>>> {
    match disk::whole_text(seen, path) {
        Err(e) => Err(e),
        Ok(None) => Ok(Some((path, starred(no_games(), files).0))),
        Ok(Some(t)) => Ok(
            if starred(t, files).1 {
                Some((path, starred(t, files).0))
            } else {
                None
            },
        ),
    }
}

/// What is written to the gamelists of some folders, in turn, up to the first that
/// cannot be read.
pub open spec fn folder_writes(
    d: spec_fn(Seq<char>) -> disk::Seen,
    roms: Seq<char>,
    folders: Seq<Seq<char>>,
    ws: Seq<(favmap::OnCard, bool)>,
) -> (Seq<(Seq<char>, Seq<char>)>, Option<Seq<Seq<char>>>)
    decreases folders.len(),
{
    if folders.len() == 0 {
        (Seq::empty(), None)
    } else {
        let (before, stopped) = folder_writes(d, roms, folders.drop_last(), ws);
        let path = favmap::gamelist_path(roms, folders.last());
        if stopped is Some {
            (before, stopped)
        } else {
            match folder_write(d(path), path, wanted_in(ws, folders.last())) {
                Err(e) => (before, Some(e)),
                Ok(Some(w)) => (before.push(w), None),
                Ok(None) => (before, None),
            }
        }
    }
}

/// The folders of the wanted games, in the order of their names.
pub open spec fn wanted_folders(ws: Seq<(favmap::OnCard, bool)>) -> Seq<Seq<char>> {
    order::sorted(ws.map_values(|w: (favmap::OnCard, bool)| w.0.folder))
}

/// Whether a path is in a collection after some games were put in and taken out in
/// turn.
pub open spec fn held_after(
    ws: Seq<(favmap::OnCard, bool)>,
    roms: Seq<char>,
    p: Seq<char>,
    before: bool,
) -> bool
    decreases ws.len(),
{
    if ws.len() == 0 {
        before
    } else if paths::components(favmap::whole_path(ws.last().0, roms)) == paths::components(p) {
        ws.last().1
    } else {
        held_after(ws.drop_last(), roms, p, before)
    }
}

/// Whether a path is one that some game was put in under.
pub open spec fn put_in(ws: Seq<(favmap::OnCard, bool)>, roms: Seq<char>, p: Seq<char>) -> bool {
    exists|i: int| 0 <= i < ws.len() && (#[trigger] ws[i]).1 && favmap::whole_path(ws[i].0, roms) == p
}

/// Whether a list of paths is what another becomes once some games were put in and
/// taken out in turn.
pub open spec fn edited(
    before: Seq<Seq<char>>,
    ws: Seq<(favmap::OnCard, bool)>,
    roms: Seq<char>,
    after: Seq<Seq<char>>,
) -> bool {
    &&& path_set::ascending(after)
    &&& forall|p: Seq<char>|
        #[trigger] path_set::holds_path(after, p) == held_after(ws, roms, p, path_set::holds_path(before, p))
    &&& forall|p: Seq<char>| #[trigger] after.contains(p) ==> before.contains(p) || put_in(ws, roms, p)
}

/// The lines and the entries of a collection file that was found.
pub open spec fn file_found(seen: disk::Seen, path: Seq<char>, ls: Seq<Seq<char>>, entries: Seq<Seq<char>>) -> bool {
    match disk::whole_text(seen, path) {
        Err(_) => false,
        Ok(None) => ls.len() == 0 && entries.len() == 0,
        Ok(Some(t)) => ls == lines::lines(t) && eslist::entries_read(ls, entries),
    }
}

/// What is written to a collection file, if something is.
pub open spec fn file_written(
    path: Seq<char>,
    ls: Seq<Seq<char>>,
    after: Seq<Seq<char>>,
) -> Seq<(Seq<char>, Seq<char>)> {
    let want = eslist::wanted_lines(ls, after);
    if want == ls {
        Seq::empty()
    } else {
        seq![(path, eslist::body_of(want))]
    }
}

/// Whether some writes are what putting games into a collection file and taking
/// them out comes to.
pub open spec fn file_writes(
    seen: disk::Seen,
    path: Seq<char>,
    ws: Seq<(favmap::OnCard, bool)>,
    roms: Seq<char>,
    out: Seq<(Seq<char>, Seq<char>)>,
) -> bool {
    exists|ls: Seq<Seq<char>>, before: Seq<Seq<char>>, after: Seq<Seq<char>>|
        #[trigger] file_found(seen, path, ls, before) && #[trigger] edited(before, ws, roms, after) && out
            == file_written(path, ls, after)
}

/// Whether the handheld's half of an item comes to this.
pub open spec fn here_comes_to(
    d: spec_fn(Seq<char>) -> disk::Seen,
    roms: Seq<char>,
    collections: Seq<char>,
    known: Seq<favmap::OnCard>,
    item: favrun::Work,
    out: Seq<(Seq<char>, Seq<char>)>,
    stopped: Option<Seq<Seq<char>>>,
) -> bool {
    let ws = wanted(item.moves, known);
    let path = favmap::collection_path(collections, item.name);
    if ws.len() == 0 {
        out.len() == 0 && stopped is None
    } else {
        match item.held {
            favrun::Kept::Stars(_) => (out, stopped) == folder_writes(d, roms, wanted_folders(ws), ws),
            favrun::Kept::File => match disk::whole_text(d(path), path) {
                Err(e) => out.len() == 0 && stopped == Some(e),
                Ok(_) => stopped is None && file_writes(d(path), path, ws, roms, out),
            },
        }
    }
}

fn card(known: &Vec<Known>, id: i64) -> (r: Option<&Known>)
    ensures
        match r {
            Some(k) => card_of(favmap::cards(known@), id) == Some(k@),
            None => card_of(favmap::cards(known@), id) is None,
        },
{
    let ghost all = favmap::cards(known@);
    let mut i: usize = known.len();
    assert(all.take(i as int) =~= all);
    while i > 0
        invariant
            all == favmap::cards(known@),
            i <= known@.len(),
            card_of(all, id) == card_of(all.take(i as int), id),
        decreases i,
    {
        i -= 1;
        proof {
            assert(all.take(i + 1).drop_last() =~= all.take(i as int));
            assert(all[i as int] == known@[i as int]@);
        }
        if known[i].rom_id == id {
            return Some(&known[i]);
        }
    }
    None
}

/// The wanted games, as values.
pub open spec fn wants(v: Seq<(Known, bool)>) -> Seq<(favmap::OnCard, bool)> {
    v.map_values(|w: (Known, bool)| (w.0@, w.1))
}

fn wanted_here(moves: &Vec<Move>, known: &Vec<Known>) -> (r: Vec<(Known, bool)>)
    ensures
        wants(r@) == wanted(moves@, favmap::cards(known@)),
{
    let ghost all = favmap::cards(known@);
    let mut out: Vec<(Known, bool)> = Vec::new();
    let mut i: usize = 0;
    assert(wants(out@) =~= wanted(moves@.take(0), all));
    while i < moves.len()
        invariant
            all == favmap::cards(known@),
            i <= moves@.len(),
            wants(out@) == wanted(moves@.take(i as int), all),
        decreases moves@.len() - i,
    {
        let ghost before = out@;
        assert(moves@.take(i + 1).drop_last() =~= moves@.take(i as int));
        if !moves[i].touches_server() {
            if let Some(k) = card(known, moves[i].rom_id()) {
                let on = match moves[i] {
                    Move::StarHere(_) => true,
                    _ => false,
                };
                let one = (k.copy(), on);
                let ghost seen = (one.0@, one.1);
                out.push(one);
                assert(wants(out@) =~= wants(before).push(seen));
            }
        }
        i += 1;
    }
    assert(moves@.take(i as int) =~= moves@);
    out
}

fn folders_of(ws: &Vec<(Known, bool)>) -> (r: Vec<String>)
    ensures
        text::texts(r@) == wanted_folders(wants(ws@)),
{
    let ghost all = wants(ws@);
    let ghost f = |w: (favmap::OnCard, bool)| w.0.folder;
    let mut out: Vec<String> = Vec::new();
    let mut i: usize = 0;
    assert(text::texts(out@).to_set() =~= all.take(0).map_values(f).to_set());
    while i < ws.len()
        invariant
            all == wants(ws@),
            f == (|w: (favmap::OnCard, bool)| w.0.folder),
            i <= ws@.len(),
            order::ascending(text::texts(out@)),
            text::texts(out@).to_set() == all.take(i as int).map_values(f).to_set(),
        decreases ws@.len() - i,
    {
        proof {
            let w = all[i as int];
            assert(w == (ws@[i as int].0@, ws@[i as int].1));
            assert(all.take(i + 1) =~= all.take(i as int).push(w));
            assert(all.take(i + 1).map_values(f) =~= all.take(i as int).map_values(f).push(w.0.folder));
            all.take(i as int).map_values(f).lemma_push_to_set_commute(w.0.folder);
        }
        let _ = order::insert(&mut out, &ws[i].0.folder);
        i += 1;
    }
    proof {
        assert(all.take(i as int) =~= all);
        order::lemma_sorted(all.map_values(|w: (favmap::OnCard, bool)| w.0.folder));
        order::lemma_ascending_unique(text::texts(out@), wanted_folders(all));
    }
    out
}

fn star_folder(list: &mut Gamelist, folder: &str, ws: &Vec<(Known, bool)>)
    ensures
        ({
            let files = wanted_in(wants(ws@), folder@);
            &&& final(list).text() == starred(old(list).text(), files).0
            &&& final(list).moved() == (old(list).moved() || starred(old(list).text(), files).1)
            &&& final(list).place() == old(list).place()
        }),
{
    let ghost all = wants(ws@);
    let ghost t = list.text();
    let ghost dirty = list.moved();
    let ghost at = list.place();
    let mut i: usize = 0;
    assert(all.take(0) =~= Seq::empty());
    while i < ws.len()
        invariant
            all == wants(ws@),
            i <= ws@.len(),
            list.text() == starred(t, wanted_in(all.take(i as int), folder@)).0,
            list.moved() == (dirty || starred(t, wanted_in(all.take(i as int), folder@)).1),
            list.place() == at,
        decreases ws@.len() - i,
    {
        let ghost files = wanted_in(all.take(i as int), folder@);
        let ghost next = wanted_in(all.take(i + 1), folder@);
        proof {
            assert(all.take(i + 1).drop_last() =~= all.take(i as int));
            assert(all[i as int] == (ws@[i as int].0@, ws@[i as int].1));
        }
        if text::same(&ws[i].0.folder, folder) {
            let p = ws[i].0.rel_path();
            let on = ws[i].1;
            proof {
                assert(next == files.push((p@, on)));
                assert(next.drop_last() =~= files);
            }
            let _ = list.set_favorite(&p, on);
        }
        i += 1;
    }
    assert(all.take(i as int) =~= all);
}

fn star_folders(disk: &Disk, es: &EsPaths, ws: &Vec<(Known, bool)>) -> (r: HereWork)
    ensures
        (writes(r.writes@), chain(r.stopped)) == folder_writes(
            disk.all(),
            es.roms@,
            wanted_folders(wants(ws@)),
            wants(ws@),
        ),
{
    let names = folders_of(ws);
    let ghost all = text::texts(names@);
    let ghost wt = wants(ws@);
    let ghost d = disk.all();
    let mut out: Vec<FileWrite> = Vec::new();
    let mut i: usize = 0;
    assert(writes(out@) =~= Seq::empty());
    while i < names.len()
        invariant
            all == text::texts(names@),
            all == wanted_folders(wants(ws@)),
            wt == wants(ws@),
            d == disk.all(),
            i <= names@.len(),
            folder_writes(d, es.roms@, all.take(i as int), wt) == (writes(out@), None::<Seq<Seq<char>>>),
        decreases names@.len() - i,
    {
        let path = es.gamelist(&names[i]);
        let ghost n = i as int;
        let ghost before = out@;
        proof {
            assert(all.take(n + 1).drop_last() =~= all.take(n));
            assert(all[n] == names@[n]@);
            assert(d(path@) == disk.at(path@));
        }
        let mut list = match Gamelist::load_or_empty(disk, &path) {
            Ok(l) => l,
            Err(e) => {
                proof {
                    lemma_writes_stopped(d, es.roms@, all, wt, n + 1);
                }
                return HereWork { writes: out, stopped: Some(e) };
            },
        };
        star_folder(&mut list, &names[i], ws);
        if let Some(t) = list.save() {
            let w = FileWrite { path, text: t };
            let ghost one = (w.path@, w.text@);
            out.push(w);
            assert(writes(out@) =~= writes(before).push(one));
        }
        i += 1;
    }
    assert(all.take(i as int) =~= all);
    HereWork { writes: out, stopped: None }
}

proof fn lemma_writes_stopped(
    d: spec_fn(Seq<char>) -> disk::Seen,
    roms: Seq<char>,
    folders: Seq<Seq<char>>,
    ws: Seq<(favmap::OnCard, bool)>,
    n: int,
)
    requires
        0 <= n <= folders.len(),
        folder_writes(d, roms, folders.take(n), ws).1 is Some,
    ensures
        folder_writes(d, roms, folders, ws) == folder_writes(d, roms, folders.take(n), ws),
    decreases folders.len() - n,
{
    if n < folders.len() {
        assert(folders.take(n + 1).drop_last() =~= folders.take(n));
        lemma_writes_stopped(d, roms, folders, ws, n + 1);
    } else {
        assert(folders.take(n) =~= folders);
    }
}

fn edit_file(file: &mut CollectionFile, roms: &str, ws: &Vec<(Known, bool)>)
    requires
        old(file).entries.wf(),
    ensures
        edited(old(file).entries.list(), wants(ws@), roms@, final(file).entries.list()),
        final(file).entries.wf(),
        final(file).read_lines() == old(file).read_lines(),
        final(file).place() == old(file).place(),
{
    let ghost all = wants(ws@);
    let ghost start = file.entries.list();
    let ghost ls = file.read_lines();
    let ghost at = file.place();
    let mut i: usize = 0;
    while i < ws.len()
        invariant
            all == wants(ws@),
            i <= ws@.len(),
            file.entries.wf(),
            file.read_lines() == ls,
            file.place() == at,
            edited(start, all.take(i as int), roms@, file.entries.list()),
        decreases ws@.len() - i,
    {
        let full = ws[i].0.full_path(roms);
        let on = ws[i].1;
        let ghost n = i as int;
        let ghost before = file.entries.list();
        if on {
            let _ = file.entries.insert(&full);
        } else {
            let _ = file.entries.remove(&full);
        }
        proof {
            let w = all[n];
            assert(w == (ws@[n].0@, ws@[n].1));
            assert(all.take(n + 1) =~= all.take(n).push(w));
            let after = file.entries.list();
            if on && path_set::holds_path(before, full@) {
                assert(after == before);
            }
            lemma_edited_on(start, all.take(n), w, roms@, before, after);
        }
        i += 1;
    }
    assert(all.take(i as int) =~= all);
}

proof fn lemma_edited_on(
    start: Seq<Seq<char>>,
    ws: Seq<(favmap::OnCard, bool)>,
    w: (favmap::OnCard, bool),
    roms: Seq<char>,
    before: Seq<Seq<char>>,
    after: Seq<Seq<char>>,
)
    requires
        edited(start, ws, roms, before),
        path_set::ascending(after),
        ({
            let full = favmap::whole_path(w.0, roms);
            if w.1 {
                (path_set::holds_path(before, full) ==> after == before) && (!path_set::holds_path(before, full)
                    ==> after.to_set() == before.to_set().insert(full))
            } else {
                !path_set::holds_path(after, full) && forall|q: Seq<char>|
                    paths::components(q) != paths::components(full) ==> #[trigger] after.contains(q)
                        == before.contains(q)
            }
        }),
    ensures
        edited(start, ws.push(w), roms, after),
{
    let full = favmap::whole_path(w.0, roms);
    let all = ws.push(w);
    assert(all.drop_last() =~= ws);
    assert forall|p: Seq<char>|
        #[trigger] path_set::holds_path(after, p) == held_after(all, roms, p, path_set::holds_path(start, p)) by {
        assert(path_set::holds_path(before, p) == held_after(ws, roms, p, path_set::holds_path(start, p)));
        if paths::components(full) == paths::components(p) {
            if w.1 {
                if path_set::holds_path(before, full) {
                    let i = choose|i: int|
                        0 <= i < before.len() && paths::components(#[trigger] before[i]) == paths::components(full);
                    assert(paths::components(after[i]) == paths::components(p));
                } else {
                    assert(after.to_set().contains(full));
                    let i = choose|i: int| 0 <= i < after.len() && after[i] == full;
                    assert(paths::components(after[i]) == paths::components(p));
                }
            } else if path_set::holds_path(after, p) {
                let i = choose|i: int|
                    0 <= i < after.len() && paths::components(#[trigger] after[i]) == paths::components(p);
                assert(path_set::holds_path(after, full));
            }
        } else {
            if path_set::holds_path(after, p) {
                let i = choose|i: int|
                    0 <= i < after.len() && paths::components(#[trigger] after[i]) == paths::components(p);
                let q = after[i];
                assert(after.contains(q));
                assert(after.to_set().contains(q));
                assert(before.to_set().contains(q) || before.contains(q));
                let k = choose|k: int| 0 <= k < before.len() && before[k] == q;
                assert(paths::components(before[k]) == paths::components(p));
            }
            if path_set::holds_path(before, p) {
                let i = choose|i: int|
                    0 <= i < before.len() && paths::components(#[trigger] before[i]) == paths::components(p);
                let q = before[i];
                assert(before.contains(q));
                assert(before.to_set().contains(q));
                assert(after.to_set().contains(q) || after.contains(q));
                let k = choose|k: int| 0 <= k < after.len() && after[k] == q;
                assert(paths::components(after[k]) == paths::components(p));
            }
        }
    }
    assert forall|p: Seq<char>| #[trigger] after.contains(p) implies start.contains(p) || put_in(all, roms, p) by {
        assert(after.to_set().contains(p));
        if w.1 && p == full {
            assert(all[all.len() - 1] == w);
            assert(put_in(all, roms, p));
        } else {
            if !w.1 && paths::components(p) == paths::components(full) {
                let i = choose|i: int| 0 <= i < after.len() && after[i] == p;
                assert(path_set::holds_path(after, full));
            }
            assert(before.to_set().contains(p) || before.contains(p));
            assert(before.contains(p));
            if put_in(ws, roms, p) {
                let i = choose|i: int|
                    0 <= i < ws.len() && (#[trigger] ws[i]).1 && favmap::whole_path(ws[i].0, roms) == p;
                assert(all[i] == ws[i]);
            }
        }
    }
}

/// What writing the handheld's half of an item comes to. Each gamelist is read and
/// written once, however many of its games moved.
pub fn apply_here(disk: &Disk, es: &EsPaths, known: &Vec<Known>, item: &Item) -> (r: HereWork)
    ensures
        here_comes_to(
            disk.all(),
            es.roms@,
            es.collections@,
            favmap::cards(known@),
            item@,
            writes(r.writes@),
            chain(r.stopped),
        ),
{
    let ws = wanted_here(&item.moves, known);
    assert(wants(ws@).len() == ws@.len());
    let mut out: Vec<FileWrite> = Vec::new();
    assert(writes(out@) =~= Seq::empty());
    if ws.len() == 0 {
        return HereWork { writes: out, stopped: None };
    }
    if !item.is_file() {
        return star_folders(disk, es, &ws);
    }
    let path = es.collection(&item.name);
    let ghost d = disk.all();
    assert(d(path@) == disk.at(path@));
    let mut file = match CollectionFile::load(disk, &path) {
        Ok(f) => f,
        Err(e) => {
            return HereWork { writes: out, stopped: Some(e) };
        },
    };
    let ghost ls = file.read_lines();
    let ghost before = file.entries.list();
    assert(file_found(d(path@), path@, ls, before));
    edit_file(&mut file, &es.roms, &ws);
    let ghost after = file.entries.list();
    if let Some(t) = file.save() {
        let w = FileWrite { path, text: t };
        let ghost one = (w.path@, w.text@);
        out.push(w);
        assert(writes(out@) =~= seq![one]);
    }
    assert(edited(before, wants(ws@), es.roms@, after));
    assert(writes(out@) == file_written(path@, ls, after));
    HereWork { writes: out, stopped: None }
}

// ---------------------------------------------------------------------------
// What it came to
// ---------------------------------------------------------------------------

/// What actually happened.
#[derive(Debug, PartialEq, Eq)]
pub struct Report {
    pub applied_here: u128,
    pub sent: u128,
    pub files_written: u128,
    /// The settings were changed so that ES shows the collection files.
    pub shown: bool,
    /// One line per list that did not go through, saying which and why.
    pub failed: Vec<String>,
}

impl Default for Report {
    fn default() -> (r: Report)
        ensures
            r.applied_here == 0,
            r.sent == 0,
            r.files_written == 0,
            !r.shown,
            r.failed@.len() == 0,
    {
        Report { applied_here: 0, sent: 0, files_written: 0, shown: false, failed: Vec::new() }
    }
}

/// What happened, in words.
pub open spec fn summary_of(here: nat, sent: nat, shown: bool) -> Seq<char> {
    (if here == 0 && sent == 0 {
        "nothing to change"@
    } else if here == 0 {
        number::decimal(sent) + " sent"@
    } else if sent == 0 {
        number::decimal(here) + " applied here"@
    } else {
        number::decimal(here) + " applied here, "@ + number::decimal(sent) + " sent"@
    }) + (if shown {
        " — EmulationStation told to show them"@
    } else {
        Seq::empty()
    })
}

impl Report {
    /// The line for the panel and the log.
    pub fn summary(&self) -> (r: String)
        ensures
            r@ == summary_of(self.applied_here as nat, self.sent as nat, self.shown),
    {
        let mut note: String;
        if self.applied_here == 0 && self.sent == 0 {
            note = text::owned("nothing to change");
        } else if self.applied_here == 0 {
            note = number::decimal_of(self.sent);
            note.append(" sent");
        } else if self.sent == 0 {
            note = number::decimal_of(self.applied_here);
            note.append(" applied here");
        } else {
            note = number::decimal_of(self.applied_here);
            note.append(" applied here, ");
            let n = number::decimal_of(self.sent);
            note.append(&n);
            note.append(" sent");
        }
        if self.shown {
            note.append(" — EmulationStation told to show them");
        }
        assert(note@ =~= summary_of(self.applied_here as nat, self.sent as nat, self.shown));
        note
    }
}

/// Every list that did not sync, with why: the ones that could not be read and
/// then the ones that did not go through.
pub fn failures(plan: &Plan, report: &Report) -> (r: Vec<String>)
    ensures
        text::texts(r@) == plan@.unread + text::texts(report.failed@),
{
    let n: usize = plan.unread.len();
    let mut out = text::copied(&plan.unread, 0, n);
    assert(text::texts(plan.unread@).subrange(0, n as int) =~= plan@.unread);
    let ghost all = text::texts(report.failed@);
    let mut i: usize = 0;
    assert(plan@.unread + all.take(0) =~= plan@.unread);
    while i < report.failed.len()
        invariant
            all == text::texts(report.failed@),
            i <= report.failed@.len(),
            text::texts(out@) == plan@.unread + all.take(i as int),
        decreases report.failed@.len() - i,
    {
        let ghost before = out@;
        let l = text::owned(&report.failed[i]);
        out.push(l);
        proof {
            assert(all[i as int] == l@);
            assert(text::texts(out@) =~= text::texts(before).push(l@));
            assert(plan@.unread + all.take(i + 1) =~= (plan@.unread + all.take(i as int)).push(l@));
        }
        i += 1;
    }
    assert(all.take(i as int) =~= all);
    out
}

/// What came of one item: the server refused it, or it went through there, and the
/// handheld's half came to so many files written, or failed.
#[derive(Debug)]
pub enum Outcome {
    Refused(Failure),
    Here(Result<usize, Failure>),
}

/// What a run came to, as a value.
pub struct Ran {
    pub applied_here: nat,
    pub sent: nat,
    pub files_written: nat,
    pub failed: Seq<Seq<char>>,
    /// The collection files that went through.
    pub files: Seq<Seq<char>>,
    pub agreed: Map<Seq<char>, Set<i64>>,
}

/// What is said of a list that did not go through.
pub open spec fn failed_line(name: Seq<char>, e: Seq<Seq<char>>) -> Seq<char> {
    name + ": "@ + text::join(e, ": "@)
}

/// A run after one more item.
pub open spec fn with_item(before: Ran, w: favrun::Work, o: Outcome) -> Ran {
    match o {
        Outcome::Refused(e) => Ran { failed: before.failed.push(failed_line(w.name, e@)), ..before },
        Outcome::Here(r) => {
            let sent = before.sent + favrun::picked(w.moves, favrun::sends_up()).len() + favrun::picked(
                w.moves,
                favrun::takes_down(),
            ).len();
            match r {
                Err(e) => Ran { sent, failed: before.failed.push(failed_line(w.name, e@)), ..before },
                Ok(written) => Ran {
                    sent,
                    files_written: before.files_written + written as nat,
                    applied_here: before.applied_here + favrun::tally(w.moves, favrun::made_here()),
                    agreed: before.agreed.insert(w.id, w.agreed),
                    files: if w.held is File {
                        before.files.push(w.name)
                    } else {
                        before.files
                    },
                    ..before
                },
            }
        },
    }
}

/// A run, item by item.
pub open spec fn ran(agreed: Map<Seq<char>, Set<i64>>, items: Seq<favrun::Work>, outcomes: Seq<Outcome>) -> Ran
    decreases items.len(),
{
    if items.len() == 0 || outcomes.len() < items.len() {
        Ran {
            applied_here: 0,
            sent: 0,
            files_written: 0,
            failed: Seq::empty(),
            files: Seq::empty(),
            agreed,
        }
    } else {
        with_item(
            ran(agreed, items.drop_last(), outcomes.take(items.len() - 1)),
            items.last(),
            outcomes[items.len() - 1],
        )
    }
}

/// Refuses a plan that takes too many stars off at once, unless insisted on.
pub fn refuse(plan: &Plan, anyway: bool) -> (r: Result<(), Failure>)
    ensures
        match favrun::objection(plan@.items) {
            Some(why) => if anyway {
                r is Ok
            } else {
                r is Err && r->Err_0@ == seq![why]
            },
            None => r is Ok,
        },
{
    if anyway {
        return Ok(());
    }
    match plan.too_many_unstars() {
        Some(why) => Err(Failure::new(&why)),
        None => Ok(()),
    }
}

proof fn lemma_picked_len(moves: Seq<Move>)
    ensures
        favrun::picked(moves, favrun::sends_up()).len() + favrun::picked(moves, favrun::takes_down()).len()
            <= moves.len(),
    decreases moves.len(),
{
    if moves.len() > 0 {
        lemma_picked_len(moves.drop_last());
    }
}

fn line_for(name: &str, e: &Failure) -> (r: String)
    ensures
        r@ == failed_line(name@, e@),
{
    let mut s = text::owned(name);
    s.append(": ");
    let all = e.full();
    s.append(&all);
    s
}

/// What is done next while a plan is carried out.
#[derive(Debug)]
pub enum Carry<'a> {
    /// Ask the server for its half of this list.
    Send(&'a Item),
    /// Write this list's half on the card.
    Here(&'a Item),
    /// Nothing: every list has had its turn.
    Over,
}

/// What is done next, with what came of the lists before and whether the server has
/// taken its half of this one. The server goes first for each list: if it refuses,
/// the list is left entirely alone.
pub fn carry_on<'a>(plan: &'a Plan, outcomes: &Vec<Outcome>, sent: bool) -> (r: Carry<'a>)
    ensures
        ({
            let n = outcomes@.len();
            if n >= plan.items@.len() {
                r is Over
            } else if sent {
                r == Carry::Here(&plan.items@[n as int])
            } else {
                r == Carry::Send(&plan.items@[n as int])
            }
        }),
{
    let n: usize = outcomes.len();
    if n >= plan.items.len() {
        Carry::Over
    } else if sent {
        Carry::Here(&plan.items[n])
    } else {
        Carry::Send(&plan.items[n])
    }
}

/// What a run came to, given what came of each item: the report, and the
/// collection files that went through, which ES is still to be told to show.
///
/// What already agreed is written down first. An item moves the baseline only
/// where both halves of it went through.
pub fn carried_out(plan: &Plan, outcomes: &Vec<Outcome>, baseline: &mut Baseline) -> (r: (Report, Vec<String>))
    requires
        outcomes@.len() == plan.items@.len(),
        old(baseline).agreed.wf(),
    ensures
        final(baseline).agreed.wf(),
        ({
            let done = ran(recorded(sets(old(baseline).agreed@), plan@.already), plan@.items, outcomes@);
            &&& r.0.applied_here == done.applied_here
            &&& r.0.sent == done.sent
            &&& r.0.files_written == done.files_written
            &&& text::texts(r.0.failed@) == done.failed
            &&& !r.0.shown
            &&& text::texts(r.1@) == done.files
            &&& sets(final(baseline).agreed@) == done.agreed
        }),
{
    let ghost start = recorded(sets(baseline.agreed@), plan@.already);
    let _ = record_agreement(plan, baseline);
    let ghost all = plan@.items;
    let mut here: u128 = 0;
    let mut sent: u128 = 0;
    let mut written: u128 = 0;
    let mut failed: Vec<String> = Vec::new();
    let mut files: Vec<String> = Vec::new();
    let mut i: usize = 0;
    proof {
        assert(text::texts(failed@) =~= Seq::empty());
        assert(text::texts(files@) =~= Seq::empty());
    }
    while i < plan.items.len()
        invariant
            all == plan@.items,
            outcomes@.len() == plan.items@.len(),
            i <= plan.items@.len(),
            baseline.agreed.wf(),
            here <= i * usize::MAX,
            sent <= i * usize::MAX,
            written <= i * usize::MAX,
            ({
                let done = ran(start, all.take(i as int), outcomes@.take(i as int));
                &&& here == done.applied_here
                &&& sent == done.sent
                &&& written == done.files_written
                &&& text::texts(failed@) == done.failed
                &&& text::texts(files@) == done.files
                &&& sets(baseline.agreed@) == done.agreed
            }),
        decreases plan.items@.len() - i,
    {
        let ghost n = i as int;
        let ghost was_failed = failed@;
        let ghost was_files = files@;
        let item = &plan.items[i];
        proof {
            assert(all.take(n + 1).drop_last() =~= all.take(n));
            assert(all.take(n + 1).last() == item@);
            assert(outcomes@.take(n + 1).take(n) =~= outcomes@.take(n));
            assert(outcomes@.take(n + 1)[n] == outcomes@[n]);
            number::lemma_sizes_fit(n);
            lemma_picked_len(item.moves@);
        }
        match &outcomes[i] {
            Outcome::Refused(e) => {
                let l = line_for(&item.name, e);
                failed.push(l);
                assert(text::texts(failed@) =~= text::texts(was_failed).push(l@));
            },
            Outcome::Here(came) => {
                let most: usize = item.moves.len();
                let up: usize = item.to_server().len();
                let down: usize = item.off_server().len();
                assert(up + down <= most);
                sent += up as u128 + down as u128;
                match came {
                    Ok(k) => {
                        written += *k as u128;
                        here += item.here() as u128;
                        record_item(item, baseline);
                        if item.is_file() {
                            let name = text::owned(&item.name);
                            files.push(name);
                            assert(text::texts(files@) =~= text::texts(was_files).push(name@));
                        }
                    },
                    Err(e) => {
                        let l = line_for(&item.name, e);
                        failed.push(l);
                        assert(text::texts(failed@) =~= text::texts(was_failed).push(l@));
                    },
                }
            },
        }
        i += 1;
    }
    proof {
        assert(all.take(i as int) =~= all);
        assert(outcomes@.take(i as int) =~= outcomes@);
    }
    (Report { applied_here: here, sent, files_written: written, shown: false, failed }, files)
}

/// The report once ES was told to show the collection files that went through, or
/// could not be.
pub fn told_to_show(report: Report, shown: Result<bool, Failure>) -> (r: Report)
    ensures
        r.applied_here == report.applied_here,
        r.sent == report.sent,
        r.files_written == report.files_written,
        match shown {
            Ok(b) => r.shown == b && r.failed == report.failed,
            Err(e) => r.shown == report.shown && text::texts(r.failed@) == text::texts(report.failed@).push(
                failed_line("showing the collections in EmulationStation"@, e@),
            ),
        },
{
    let mut r = report;
    match shown {
        Ok(b) => {
            r.shown = b;
        },
        Err(e) => {
            let ghost before = r.failed@;
            let l = line_for("showing the collections in EmulationStation", &e);
            r.failed.push(l);
            assert(text::texts(r.failed@) =~= text::texts(before).push(l@));
        },
    }
    r
}

/// A list that the server refused, or that the card did not take, keeps its
/// baseline and is named with the reason.
pub proof fn law_a_list_that_failed_keeps_its_baseline(before: Ran, w: favrun::Work, o: Outcome)
    requires
        match o {
            Outcome::Refused(_) => true,
            Outcome::Here(r) => r is Err,
        },
    ensures
        with_item(before, w, o).agreed == before.agreed,
        with_item(before, w, o).files == before.files,
        with_item(before, w, o).failed.len() == before.failed.len() + 1,
        text::starts(with_item(before, w, o).failed.last(), w.name + ": "@),
{
    let line = with_item(before, w, o).failed.last();
    let head = w.name + ": "@;
    assert(line.take(head.len() as int) =~= head);
}

/// Writing an agreement down again changes nothing.
pub proof fn law_an_agreement_is_recorded_once(m: Map<Seq<char>, Set<i64>>, id: Seq<char>, agreed: Set<i64>)
    ensures
        !news(recorded(m, seq![(id, agreed)]), seq![(id, agreed)]),
{
    let one = seq![(id, agreed)];
    reveal_with_fuel(recorded, 2);
    reveal_with_fuel(news, 2);
    assert(one.drop_last() =~= Seq::empty());
    assert(one.last() == (id, agreed));
}

} // verus!
