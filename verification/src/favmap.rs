//! Which game on the card is which game on the server.
//!
//! The server knows a game by a number. EmulationStation knows it by a path.
//! [`crate::favsync`] works in numbers, so something has to hold the two
//! together, and this is it.
//!
//! The join is the path inside the system folder: the same game has the same file
//! name and the same subfolder everywhere. What is not the same is the system
//! folder, which the platform's own mapping gives.

use vstd::prelude::*;
use std::collections::BTreeSet;
use crate::eslist;
use crate::eslist::CollectionFile;
use crate::order;
use crate::paths;
use crate::table::{Key, Table};
use crate::text;

verus! {

/// What a platform calls the folder of a system that the server calls by a slug.
/// A slug it has no other name for is the folder itself.
#[derive(Debug)]
pub struct Platform {
    /// Pairs of a slug and the folder it is kept in.
    pub folders: Vec<(String, String)>,
}

/// The folder a slug is kept in: the first that names it, or the slug itself.
pub open spec fn folder_for(folders: Seq<(String, String)>, slug: Seq<char>) -> Seq<char>
    decreases folders.len(),
{
    if folders.len() == 0 {
        slug
    } else if folders[0].0@ == slug {
        folders[0].1@
    } else {
        folder_for(folders.skip(1), slug)
    }
}

impl Platform {
    /// The folder of a system.
    pub fn save_folder(&self, slug: &str) -> (r: String)
        ensures
            r@ == folder_for(self.folders@, slug@),
    {
        let mut i: usize = 0;
        assert(self.folders@.skip(0) =~= self.folders@);
        while i < self.folders.len()
            invariant
                i <= self.folders@.len(),
                folder_for(self.folders@, slug@) == folder_for(self.folders@.skip(i as int), slug@),
            decreases self.folders@.len() - i,
        {
            assert(self.folders@.skip(i as int)[0] == self.folders@[i as int]);
            if text::same(&self.folders[i].0, slug) {
                return text::owned(&self.folders[i].1);
            }
            assert(self.folders@.skip(i as int).skip(1) =~= self.folders@.skip(i + 1));
            i += 1;
        }
        text::owned(slug)
    }
}

/// A game the server knows about that is also on this card.
#[derive(Debug, PartialEq, Eq)]
pub struct Known {
    pub rom_id: i64,
    /// The folder under the ROMs root: `snes`, not `sfc`.
    pub folder: String,
    /// The folder inside that, empty at the top.
    pub rel_dir: String,
    /// The file in it, as ES names it.
    pub file: String,
}

/// A game on the card, as a value.
pub struct OnCard {
    pub rom_id: i64,
    pub folder: Seq<char>,
    pub rel_dir: Seq<char>,
    pub file: Seq<char>,
}

impl View for Known {
    type V = OnCard;

    open spec fn view(&self) -> OnCard {
        OnCard { rom_id: self.rom_id, folder: self.folder@, rel_dir: self.rel_dir@, file: self.file@ }
    }
}

/// The games on the card, as values.
pub open spec fn cards(known: Seq<Known>) -> Seq<OnCard> {
    known.map_values(|k: Known| k@)
}

/// Where a game is inside its system folder.
pub open spec fn inside(k: OnCard) -> Seq<char> {
    if k.rel_dir.len() == 0 {
        k.file
    } else {
        k.rel_dir + "/"@ + k.file
    }
}

/// Where a game is, below a root.
pub open spec fn whole_path(k: OnCard, roms_root: Seq<char>) -> Seq<char> {
    paths::joined(paths::joined(roms_root, k.folder), inside(k))
}

impl Known {
    /// Where the game is inside its system folder, as ES writes it in a
    /// gamelist's `<path>`, without the `./`.
    pub fn rel_path(&self) -> (r: String)
        ensures
            r@ == inside(self@),
    {
        if text::is_empty(&self.rel_dir) {
            text::owned(&self.file)
        } else {
            let mut s = text::owned(&self.rel_dir);
            s.append("/");
            s.append(&self.file);
            s
        }
    }

    /// Where the game is, below a root.
    pub fn full_path(&self, roms_root: &str) -> (r: String)
        ensures
            r@ == whole_path(self@, roms_root@),
    {
        let dir = paths::join(roms_root, &self.folder);
        paths::join(&dir, &self.rel_path())
    }

    /// The same game once more.
    pub fn copy(&self) -> (r: Known)
        ensures
            r@ == self@,
    {
        Known {
            rom_id: self.rom_id,
            folder: text::owned(&self.folder),
            rel_dir: text::owned(&self.rel_dir),
            file: text::owned(&self.file),
        }
    }
}

/// A character of a path, with one kind of slash.
pub open spec fn slash(c: char) -> char {
    if c == '\\' {
        '/'
    } else {
        c
    }
}

/// A path with one kind of slash.
pub open spec fn slashed(t: Seq<char>) -> Seq<char> {
    t.map_values(|c: char| slash(c))
}

/// The folder names in a path: what stands between its slashes of either kind.
pub open spec fn folder_names(t: Seq<char>) -> Seq<Seq<char>> {
    nonempty(text::split(slashed(t), '/'))
}

/// The texts that are not empty.
pub open spec fn nonempty(ts: Seq<Seq<char>>) -> Seq<Seq<char>>
    decreases ts.len(),
{
    if ts.len() == 0 {
        Seq::empty()
    } else {
        let before = nonempty(ts.drop_last());
        if ts.last().len() > 0 {
            before.push(ts.last())
        } else {
            before
        }
    }
}

/// Whether a folder name stays inside the folder it is joined to.
pub open spec fn plain(name: Seq<char>) -> bool {
    name != "."@ && name != ".."@ && !name.contains(':')
}

/// Whether a folder begins at a root, with a slash of either kind.
pub open spec fn rooted(t: Seq<char>) -> bool {
    t.len() > 0 && slash(t[0]) == '/'
}

/// A server's folder, if it is a plain path of folder names that begins at no
/// root.
pub open spec fn plain_dir(rel_dir: Seq<char>) -> Option<Seq<char>> {
    let names = folder_names(rel_dir);
    if !rooted(rel_dir) && forall|i: int| 0 <= i < names.len() ==> plain(#[trigger] names[i]) {
        Some(text::join(names, "/"@))
    } else {
        None
    }
}

fn slashes(t: &str) -> (r: String)
    ensures
        r@ == slashed(t@),
{
    let cs = text::chars_of(t);
    let mut out: String = String::new();
    let mut i: usize = 0;
    assert(out@ =~= slashed(cs@.take(0)));
    while i < cs.len()
        invariant
            i <= cs@.len(),
            out@ == slashed(cs@.take(i as int)),
        decreases cs@.len() - i,
    {
        let c = if cs[i] == '\\' { '/' } else { cs[i] };
        let ghost before = out@;
        out.push(c);
        assert(slashed(cs@.take(i + 1)) =~= before.push(c));
        i += 1;
    }
    assert(cs@.take(i as int) =~= cs@);
    out
}

fn is_plain(name: &str) -> (r: bool)
    ensures
        r == plain(name@),
{
    if text::same(name, ".") || text::same(name, "..") {
        return false;
    }
    let cs = text::chars_of(name);
    let mut i: usize = 0;
    while i < cs.len()
        invariant
            cs@ == name@,
            i <= cs@.len(),
            forall|k: int| 0 <= k < i ==> cs@[k] != ':',
            name@ != "."@,
            name@ != ".."@,
        decreases cs@.len() - i,
    {
        if cs[i] == ':' {
            assert(name@.contains(':'));
            return false;
        }
        i += 1;
    }
    true
}

/// A server's folder, if it is a plain path of folder names.
///
/// It is joined onto the card, so `..`, a root or a drive would reach outside the
/// system folder. A game carrying one is left off the card rather than followed
/// there.
pub fn plain_rel_dir(rel_dir: &str) -> (r: Option<String>)
    ensures
        text::opt(r) == plain_dir(rel_dir@),
{
    let cs = text::chars_of(rel_dir);
    if cs.len() > 0 && (cs[0] == '/' || cs[0] == '\\') {
        return None;
    }
    let s = slashes(rel_dir);
    let all = text::pieces(&s, '/');
    let ghost ts = text::texts(all@);
    let mut names: Vec<String> = Vec::new();
    let mut i: usize = 0;
    assert(text::texts(names@) =~= nonempty(ts.take(0)));
    while i < all.len()
        invariant
            ts == text::texts(all@),
            i <= all@.len(),
            text::texts(names@) == nonempty(ts.take(i as int)),
        decreases all@.len() - i,
    {
        let ghost before = names@;
        proof {
            assert(ts.take(i + 1).drop_last() =~= ts.take(i as int));
            assert(ts[i as int] == all@[i as int]@);
        }
        if !text::is_empty(&all[i]) {
            let n = text::owned(&all[i]);
            names.push(n);
            assert(text::texts(names@) =~= text::texts(before).push(n@));
        }
        i += 1;
    }
    assert(ts.take(i as int) =~= ts);
    let ghost ns = text::texts(names@);
    let mut k: usize = 0;
    while k < names.len()
        invariant
            ns == text::texts(names@),
            ns == folder_names(rel_dir@),
            !rooted(rel_dir@),
            k <= names@.len(),
            forall|j: int| 0 <= j < k ==> plain(#[trigger] ns[j]),
        decreases names@.len() - k,
    {
        assert(ns[k as int] == names@[k as int]@);
        if !is_plain(&names[k]) {
            return None;
        }
        k += 1;
    }
    Some(text::joined(&names, "/"))
}

/// A game as the server's index has it.
#[derive(Debug)]
pub struct Rom {
    pub id: i64,
    pub platform_slug: String,
    pub rel_dir: String,
    pub fs_name: String,
}

/// What one folder of the card holds.
#[derive(Debug)]
pub struct Listed {
    pub folder: String,
    pub rel_dir: String,
    pub names: Vec<String>,
}

/// The folders to look into, as values.
pub open spec fn asked(v: Seq<(String, String)>) -> Seq<(Seq<char>, Seq<char>)> {
    v.map_values(|p: (String, String)| (p.0@, p.1@))
}

/// The folder a game is to be looked for in, if it is a plain one.
pub open spec fn folder_of(rom: Rom, folders: Seq<(String, String)>) -> Option<(Seq<char>, Seq<char>)> {
    match plain_dir(rom.rel_dir@) {
        Some(d) => Some((folder_for(folders, rom.platform_slug@), d)),
        None => None,
    }
}

/// The folders to look into to find some games, each once.
pub open spec fn to_list(roms: Seq<Rom>, folders: Seq<(String, String)>) -> Seq<(Seq<char>, Seq<char>)>
    decreases roms.len(),
{
    if roms.len() == 0 {
        Seq::empty()
    } else {
        let before = to_list(roms.drop_last(), folders);
        match folder_of(roms.last(), folders) {
            Some(f) => if before.contains(f) {
                before
            } else {
                before.push(f)
            },
            None => before,
        }
    }
}

fn has_pair(v: &Vec<(String, String)>, a: &str, b: &str) -> (r: bool)
    ensures
        r == asked(v@).contains((a@, b@)),
{
    let mut i: usize = 0;
    while i < v.len()
        invariant
            i <= v@.len(),
            forall|k: int| 0 <= k < i ==> #[trigger] asked(v@)[k] != (a@, b@),
        decreases v@.len() - i,
    {
        assert(asked(v@)[i as int] == (v@[i as int].0@, v@[i as int].1@));
        if text::same(&v[i].0, a) && text::same(&v[i].1, b) {
            assert(asked(v@)[i as int] == (a@, b@));
            return true;
        }
        i += 1;
    }
    false
}

/// The folders to look into to find some games: one listing for each folder, not
/// one look for each game.
pub fn folders_to_list(roms: &Vec<Rom>, platform: &Platform) -> (r: Vec<(String, String)>)
    ensures
        asked(r@) == to_list(roms@, platform.folders@),
{
    let mut out: Vec<(String, String)> = Vec::new();
    let mut i: usize = 0;
    assert(asked(out@) =~= to_list(roms@.take(0), platform.folders@));
    while i < roms.len()
        invariant
            i <= roms@.len(),
            asked(out@) == to_list(roms@.take(i as int), platform.folders@),
        decreases roms@.len() - i,
    {
        let ghost before = out@;
        assert(roms@.take(i + 1).drop_last() =~= roms@.take(i as int));
        if let Some(d) = plain_rel_dir(&roms[i].rel_dir) {
            let f = platform.save_folder(&roms[i].platform_slug);
            if !has_pair(&out, &f, &d) {
                out.push((f, d));
                assert(asked(out@) =~= asked(before).push((f@, d@)));
            }
        }
        i += 1;
    }
    assert(roms@.take(i as int) =~= roms@);
    out
}

/// What a folder of the card holds: the names of the first listing of it.
pub open spec fn names_at(listed: Seq<Listed>, folder: Seq<char>, rel_dir: Seq<char>) -> Seq<Seq<char>>
    decreases listed.len(),
{
    if listed.len() == 0 {
        Seq::empty()
    } else if listed[0].folder@ == folder && listed[0].rel_dir@ == rel_dir {
        text::texts(listed[0].names@)
    } else {
        names_at(listed.skip(1), folder, rel_dir)
    }
}

/// What the card calls a game that the server calls by a name: that, or the
/// playlist of that name.
pub open spec fn named_on_card(here: Seq<Seq<char>>, fs_name: Seq<char>) -> Option<Seq<char>> {
    if here.contains(fs_name) {
        Some(fs_name)
    } else if here.contains(fs_name + ".m3u"@) {
        Some(fs_name + ".m3u"@)
    } else {
        None
    }
}

/// What the card calls a game the server calls `fs_name`.
///
/// Usually the same thing. A game of several discs is one game on the server, and
/// on the card a hidden folder of discs with a playlist beside it. What ES shows,
/// and therefore what ES stars, is the playlist.
pub fn as_named_on_card(here: &Vec<String>, fs_name: &str) -> (r: Option<String>)
    ensures
        text::opt(r) == named_on_card(text::texts(here@), fs_name@),
{
    if text::list_has(here, fs_name) {
        return Some(text::owned(fs_name));
    }
    let mut playlist = text::owned(fs_name);
    playlist.append(".m3u");
    if text::list_has(here, &playlist) {
        Some(playlist)
    } else {
        None
    }
}

/// The game on the card that a game of the index is, if it is there.
pub open spec fn found_on_card(rom: Rom, folders: Seq<(String, String)>, listed: Seq<Listed>) -> Option<OnCard> {
    match folder_of(rom, folders) {
        Some((folder, rel_dir)) => match named_on_card(names_at(listed, folder, rel_dir), rom.fs_name@) {
            Some(file) => Some(OnCard { rom_id: rom.id, folder, rel_dir, file }),
            None => None,
        },
        None => None,
    }
}

/// Every game of an index that is on the card.
pub open spec fn all_on_card(roms: Seq<Rom>, folders: Seq<(String, String)>, listed: Seq<Listed>) -> Seq<OnCard>
    decreases roms.len(),
{
    if roms.len() == 0 {
        Seq::empty()
    } else {
        let before = all_on_card(roms.drop_last(), folders, listed);
        match found_on_card(roms.last(), folders, listed) {
            Some(k) => before.push(k),
            None => before,
        }
    }
}

fn in_listing(listed: &Vec<Listed>, folder: &str, rel_dir: &str, fs_name: &str) -> (r: Option<String>)
    ensures
        text::opt(r) == named_on_card(names_at(listed@, folder@, rel_dir@), fs_name@),
{
    let mut i: usize = 0;
    assert(listed@.skip(0) =~= listed@);
    while i < listed.len()
        invariant
            i <= listed@.len(),
            names_at(listed@, folder@, rel_dir@) == names_at(listed@.skip(i as int), folder@, rel_dir@),
        decreases listed@.len() - i,
    {
        assert(listed@.skip(i as int)[0] == listed@[i as int]);
        if text::same(&listed[i].folder, folder) && text::same(&listed[i].rel_dir, rel_dir) {
            return as_named_on_card(&listed[i].names, fs_name);
        }
        assert(listed@.skip(i as int).skip(1) =~= listed@.skip(i + 1));
        i += 1;
    }
    None
}

/// Every game of the index that is actually sitting on this card.
///
/// Checked against what the card holds rather than trusted from the index: a star
/// can only be set on a game ES can see. Games that are not here are simply absent
/// from the result, which is what stops them being read as unstarred.
pub fn on_card(roms: &Vec<Rom>, platform: &Platform, listed: &Vec<Listed>) -> (r: Vec<Known>)
    ensures
        cards(r@) == all_on_card(roms@, platform.folders@, listed@),
{
    let mut out: Vec<Known> = Vec::new();
    let mut i: usize = 0;
    assert(cards(out@) =~= all_on_card(roms@.take(0), platform.folders@, listed@));
    while i < roms.len()
        invariant
            i <= roms@.len(),
            cards(out@) == all_on_card(roms@.take(i as int), platform.folders@, listed@),
        decreases roms@.len() - i,
    {
        let ghost before = out@;
        let rom = &roms[i];
        assert(roms@.take(i + 1).drop_last() =~= roms@.take(i as int));
        if let Some(rel_dir) = plain_rel_dir(&rom.rel_dir) {
            let folder = platform.save_folder(&rom.platform_slug);
            if let Some(file) = in_listing(listed, &folder, &rel_dir, &rom.fs_name) {
                let k = Known { rom_id: rom.id, folder, rel_dir, file };
                let ghost seen = k@;
                out.push(k);
                assert(cards(out@) =~= cards(before).push(seen));
            }
        }
        i += 1;
    }
    assert(roms@.take(i as int) =~= roms@);
    out
}

/// The numbers of some games.
pub open spec fn numbers(known: Seq<OnCard>) -> Set<i64> {
    Set::new(|id: i64| exists|i: int| 0 <= i < known.len() && (#[trigger] known[i]).rom_id == id)
}

/// The games on this card, by number.
pub fn ids(known: &Vec<Known>) -> (r: BTreeSet<i64>)
    ensures
        r@ == numbers(cards(known@)),
{
    let ghost all = cards(known@);
    let mut out: BTreeSet<i64> = BTreeSet::new();
    let mut i: usize = 0;
    while i < known.len()
        invariant
            all == cards(known@),
            i <= known@.len(),
            forall|id: i64|
                #[trigger] out@.contains(id) <==> exists|k: int| 0 <= k < i && (#[trigger] all[k]).rom_id == id,
        decreases known@.len() - i,
    {
        let ghost before = out@;
        let ghost n = i as int;
        let _ = out.insert(known[i].rom_id);
        i += 1;
        proof {
            assert(all[n] == known@[n]@);
            assert forall|id: i64| #[trigger] out@.contains(id) <==> exists|k: int|
                0 <= k < i && (#[trigger] all[k]).rom_id == id by {
                assert(before.contains(id) <==> exists|k: int| 0 <= k < n && (#[trigger] all[k]).rom_id == id);
            }
        }
    }
    assert(out@ =~= numbers(all));
    out
}

/// The games of a folder, in the order they have.
pub open spec fn in_folder(known: Seq<OnCard>, folder: Seq<char>) -> Seq<OnCard>
    decreases known.len(),
{
    if known.len() == 0 {
        Seq::empty()
    } else {
        let before = in_folder(known.drop_last(), folder);
        if known.last().folder == folder {
            before.push(known.last())
        } else {
            before
        }
    }
}

/// The folders of some games, in the order of their names, each once.
pub open spec fn folder_list(known: Seq<OnCard>) -> Seq<Seq<char>> {
    order::sorted(known.map_values(|k: OnCard| k.folder))
}

/// The folders of some games, in the order of their names.
pub fn folders(known: &Vec<Known>) -> (r: Vec<String>)
    ensures
        order::ascending(text::texts(r@)),
        text::texts(r@).to_set() == cards(known@).map_values(|k: OnCard| k.folder).to_set(),
        text::texts(r@) == folder_list(cards(known@)),
{
    let ghost all = cards(known@);
    let ghost f = |k: OnCard| k.folder;
    let mut out: Vec<String> = Vec::new();
    let mut i: usize = 0;
    assert(text::texts(out@).to_set() =~= all.take(0).map_values(f).to_set());
    while i < known.len()
        invariant
            all == cards(known@),
            f == (|k: OnCard| k.folder),
            i <= known@.len(),
            order::ascending(text::texts(out@)),
            text::texts(out@).to_set() == all.take(i as int).map_values(f).to_set(),
        decreases known@.len() - i,
    {
        proof {
            let k = all[i as int];
            assert(k == known@[i as int]@);
            assert(all.take(i + 1) =~= all.take(i as int).push(k));
            assert(all.take(i + 1).map_values(f) =~= all.take(i as int).map_values(f).push(k.folder));
            all.take(i as int).map_values(f).lemma_push_to_set_commute(k.folder);
        }
        let _ = order::insert(&mut out, &known[i].folder);
        i += 1;
    }
    assert(all.take(i as int) =~= all);
    proof {
        order::lemma_sorted(all.map_values(f));
        order::lemma_ascending_unique(text::texts(out@), folder_list(all));
    }
    out
}

/// Card games grouped by the folder they live in, in the order of the folders.
pub fn by_folder(known: &Vec<Known>) -> (r: Vec<(String, Vec<Known>)>)
    ensures
        order::ascending(r@.map_values(|p: (String, Vec<Known>)| p.0@)),
        r@.map_values(|p: (String, Vec<Known>)| p.0@).to_set() == cards(known@).map_values(
            |k: OnCard| k.folder,
        ).to_set(),
        forall|i: int| 0 <= i < r@.len() ==> cards((#[trigger] r@[i]).1@) == in_folder(cards(known@), r@[i].0@),
{
    let names = folders(known);
    let mut out: Vec<(String, Vec<Known>)> = Vec::new();
    let ghost g = |p: (String, Vec<Known>)| p.0@;
    let mut i: usize = 0;
    while i < names.len()
        invariant
            i <= names@.len(),
            out@.len() == i,
            forall|k: int| 0 <= k < i ==> (#[trigger] out@[k]).0@ == names@[k]@,
            forall|k: int|
                0 <= k < i ==> cards((#[trigger] out@[k]).1@) == in_folder(cards(known@), out@[k].0@),
        decreases names@.len() - i,
    {
        let ghost all = cards(known@);
        let mut some: Vec<Known> = Vec::new();
        let mut j: usize = 0;
        assert(cards(some@) =~= in_folder(all.take(0), names@[i as int]@));
        while j < known.len()
            invariant
                all == cards(known@),
                i < names@.len(),
                j <= known@.len(),
                cards(some@) == in_folder(all.take(j as int), names@[i as int]@),
            decreases known@.len() - j,
        {
            let ghost before = some@;
            proof {
                assert(all.take(j + 1).drop_last() =~= all.take(j as int));
                assert(all[j as int] == known@[j as int]@);
            }
            if text::same(&known[j].folder, &names[i]) {
                let k = known[j].copy();
                let ghost seen = k@;
                some.push(k);
                assert(cards(some@) =~= cards(before).push(seen));
            }
            j += 1;
        }
        assert(all.take(j as int) =~= all);
        out.push((text::owned(&names[i]), some));
        i += 1;
    }
    assert(out@.map_values(g) =~= text::texts(names@));
    out
}

/// What a game is looked up by: its system folder, and the path inside it that ES
/// names it with.
#[derive(Debug)]
pub struct FileKey {
    pub folder: String,
    pub path: String,
}

impl Key for FileKey {
    type K = (Seq<char>, Seq<char>);

    open spec fn of(&self) -> (Seq<char>, Seq<char>) {
        (self.folder@, self.path@)
    }

    fn same(&self, other: &FileKey) -> (r: bool) {
        text::same(&self.folder, &other.folder) && text::same(&self.path, &other.path)
    }
}

/// The numbers of games by where they are; of two in one place the later.
pub open spec fn file_map(known: Seq<OnCard>) -> Map<(Seq<char>, Seq<char>), i64>
    decreases known.len(),
{
    if known.len() == 0 {
        Map::empty()
    } else {
        file_map(known.drop_last()).insert((known.last().folder, inside(known.last())), known.last().rom_id)
    }
}

/// Looks a game up by the system folder and the path inside it. Two games of one
/// file name in `snes/` and `snes/Aftermarket/` are two keys.
pub fn by_file(known: &Vec<Known>) -> (r: Table<FileKey, i64>)
    ensures
        r.wf(),
        r@ == file_map(cards(known@)),
{
    let ghost all = cards(known@);
    let mut out: Table<FileKey, i64> = Table::new();
    let mut i: usize = 0;
    while i < known.len()
        invariant
            all == cards(known@),
            i <= known@.len(),
            out.wf(),
            out@ == file_map(all.take(i as int)),
        decreases known@.len() - i,
    {
        proof {
            assert(all.take(i + 1).drop_last() =~= all.take(i as int));
            assert(all[i as int] == known@[i as int]@);
        }
        let key = FileKey { folder: text::owned(&known[i].folder), path: known[i].rel_path() };
        out.insert(key, known[i].rom_id);
        i += 1;
    }
    assert(all.take(i as int) =~= all);
    out
}

/// Where ES keeps its two kinds of list.
#[derive(Debug)]
pub struct EsPaths {
    pub roms: String,
    pub collections: String,
    pub settings: String,
}

/// Where one system's gamelist is.
pub open spec fn gamelist_path(roms: Seq<char>, folder: Seq<char>) -> Seq<char> {
    paths::joined(paths::joined(roms, folder), "gamelist.xml"@)
}

/// Where one collection's file is.
pub open spec fn collection_path(collections: Seq<char>, name: Seq<char>) -> Seq<char> {
    paths::joined(collections, "custom-"@ + eslist::es_named(name) + ".cfg"@)
}

/// The system folder and the path inside it of a ROM's path, if it is below the
/// ROMs folder.
pub open spec fn located(roms: Seq<char>, rom: Seq<char>) -> Option<(Seq<char>, Seq<char>)> {
    match paths::below(rom, roms) {
        None => None,
        Some(rest) => {
            let parts = paths::components(rest);
            if parts.len() < 2 {
                None
            } else {
                Some((parts[0], text::join(parts.skip(1), "/"@)))
            }
        },
    }
}

impl EsPaths {
    /// The KNULLI layout.
    pub fn knulli() -> (r: EsPaths)
        ensures
            r.roms@ == paths::joined("/userdata"@, "roms"@),
            r.collections@ == paths::joined(
                paths::joined("/userdata"@, "system/configs/emulationstation"@),
                "collections"@,
            ),
            r.settings@ == paths::joined(
                paths::joined("/userdata"@, "system/configs/emulationstation"@),
                "es_settings.cfg"@,
            ),
    {
        EsPaths::under("/userdata")
    }

    /// The same layout under some other root.
    pub fn under(userdata: &str) -> (r: EsPaths)
        ensures
            r.roms@ == paths::joined(userdata@, "roms"@),
            r.collections@ == paths::joined(
                paths::joined(userdata@, "system/configs/emulationstation"@),
                "collections"@,
            ),
            r.settings@ == paths::joined(
                paths::joined(userdata@, "system/configs/emulationstation"@),
                "es_settings.cfg"@,
            ),
    {
        let es = paths::join(userdata, "system/configs/emulationstation");
        EsPaths {
            roms: paths::join(userdata, "roms"),
            collections: paths::join(&es, "collections"),
            settings: paths::join(&es, "es_settings.cfg"),
        }
    }

    /// One system's gamelist.
    pub fn gamelist(&self, folder: &str) -> (r: String)
        ensures
            r@ == gamelist_path(self.roms@, folder@),
    {
        let dir = paths::join(&self.roms, folder);
        paths::join(&dir, "gamelist.xml")
    }

    /// One collection's membership file.
    pub fn collection(&self, name: &str) -> (r: String)
        ensures
            r@ == collection_path(self.collections@, name@),
    {
        paths::join(&self.collections, &CollectionFile::file_name(name))
    }

    /// The system folder and the path inside it, for an absolute ROM path from a
    /// collection file, or `None` for one outside the ROMs folder.
    pub fn locate(&self, rom: &str) -> (r: Option<(String, String)>)
        ensures
            match r {
                Some((folder, path)) => located(self.roms@, rom@) == Some((folder@, path@)),
                None => located(self.roms@, rom@) is None,
            },
    {
        let rest = match paths::strip_prefix(rom, &self.roms) {
            Some(p) => p,
            None => {
                return None;
            },
        };
        let parts = paths::components_of(&rest);
        let n: usize = parts.len();
        assert(text::texts(parts@).len() == n);
        if n < 2 {
            return None;
        }
        let some = text::copied(&parts, 1, n);
        assert(text::texts(parts@).subrange(1, n as int) =~= text::texts(parts@).skip(1));
        assert(text::texts(parts@)[0] == parts@[0]@);
        Some((text::owned(&parts[0]), text::joined(&some, "/")))
    }
}

} // verus!
