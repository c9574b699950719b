//! What the desktop window decides: the order things are done in, when to stop, and
//! what is said about it.

use vstd::prelude::*;
use crate::crypto;
use crate::failure::Failure;
use crate::library;
use crate::number;
use crate::paths;
use crate::text;
use crate::worker;
use crate::worker::SaveConflict;

verus! {

/// A count in front of what was counted, or nothing where there was none.
pub open spec fn if_any(n: nat, before: Seq<char>, after: Seq<char>) -> Seq<char> {
    if n > 0 {
        before + number::decimal(n) + after
    } else {
        Seq::empty()
    }
}

fn add_if_any(s: &mut String, n: usize, before: &str, after: &str)
    ensures
        final(s)@ == old(s)@ + if_any(n as nat, before@, after@),
{
    let ghost was = s@;
    if n > 0 {
        s.append(before);
        let d = number::decimal_of(n as u128);
        s.append(&d);
        s.append(after);
    }
    assert(s@ =~= was + if_any(n as nat, before@, after@));
}

fn add_count(s: &mut String, n: usize)
    ensures
        final(s)@ == old(s)@ + number::decimal(n as nat),
{
    let d = number::decimal_of(n as u128);
    s.append(&d);
}

// ---------------------------------------------------------------------------
// Syncing the library
// ---------------------------------------------------------------------------

/// Where a sync of the library is: this machine first, and then the server, if
/// there is one.
#[derive(Debug, Clone, Copy, PartialEq, Eq, Structural)]
pub enum Pass {
    Local,
    Server,
    Games,
    Collections,
    Pictures,
    Done,
}

/// What comes next in a sync of the library. A library on disk is a library, so
/// the first pass asks for no server; without one the rest is left out.
pub fn next_pass(p: Pass, has_server: bool) -> (r: Pass)
    ensures
        r == (match p {
            Pass::Local => if has_server {
                Pass::Server
            } else {
                Pass::Done
            },
            Pass::Server => Pass::Games,
            Pass::Games => Pass::Collections,
            Pass::Collections => Pass::Pictures,
            Pass::Pictures => Pass::Done,
            Pass::Done => Pass::Done,
        }),
{
    match p {
        Pass::Local => if has_server {
            Pass::Server
        } else {
            Pass::Done
        },
        Pass::Server => Pass::Games,
        Pass::Games => Pass::Collections,
        Pass::Collections => Pass::Pictures,
        Pass::Pictures => Pass::Done,
        Pass::Done => Pass::Done,
    }
}

/// What is said while a sync of the library is there.
pub fn pass_text(p: Pass) -> (r: &'static str)
    ensures
        r@ == (match p {
            Pass::Local => "looking for games on this device…"@,
            Pass::Server => "checking the server…"@,
            Pass::Games => "fetching the library…"@,
            Pass::Collections => "collections…"@,
            Pass::Pictures => "console pictures…"@,
            Pass::Done => "done"@,
        }),
{
    match p {
        Pass::Local => "looking for games on this device…",
        Pass::Server => "checking the server…",
        Pass::Games => "fetching the library…",
        Pass::Collections => "collections…",
        Pass::Pictures => "console pictures…",
        Pass::Done => "done",
    }
}

/// What a sync says that had no server.
pub fn without_server(total: usize, roms_dir: &str) -> (r: String)
    ensures
        r@ == (if total == 0 {
            "No games found under "@ + roms_dir@ + " and no server configured."@
        } else {
            number::decimal(total as nat) + " games found on this device. No server configured."@
        }),
{
    if total == 0 {
        let mut s = text::owned("No games found under ");
        s.append(roms_dir);
        s.append(" and no server configured.");
        s
    } else {
        let mut s = number::decimal_of(total as u128);
        s.append(" games found on this device. No server configured.");
        s
    }
}

/// What a sync of the library came to.
#[derive(Debug, Clone, Copy)]
pub struct LibrarySync {
    pub incremental: bool,
    pub total: usize,
    pub platforms: usize,
    pub upserted: usize,
    pub pruned: usize,
    pub collections: usize,
    pub renamed: usize,
    /// How many games were found on this device, and how many of them the server
    /// has too.
    pub local: usize,
    pub folded: usize,
    pub icons: usize,
}

/// What a sync of the library came to, in words.
pub open spec fn synced_text(s: LibrarySync) -> Seq<char> {
    (if s.incremental {
        "Incremental"@
    } else {
        "Full"@
    }) + " sync: "@ + number::decimal(s.total as nat) + " games across "@ + number::decimal(s.platforms as nat)
        + " platforms ("@ + number::decimal(s.upserted as nat) + " updated"@ + if_any(
        s.pruned as nat,
        ", "@,
        " removed"@,
    ) + if_any(s.collections as nat, ", "@, " collections"@) + if_any(s.renamed as nat, ", "@, " arcade titles"@)
        + if_any(
        s.local as nat,
        ", "@,
        " found on this device of which "@ + number::decimal(s.folded as nat) + " matched the server"@,
    ) + ")"@ + if_any(s.icons as nat, ", "@, " console pictures"@)
}

/// What a sync of the library came to, in words.
pub fn synced(s: &LibrarySync) -> (r: String)
    ensures
        r@ == synced_text(*s),
{
    let mut out = if s.incremental { text::owned("Incremental") } else { text::owned("Full") };
    out.append(" sync: ");
    add_count(&mut out, s.total);
    out.append(" games across ");
    add_count(&mut out, s.platforms);
    out.append(" platforms (");
    add_count(&mut out, s.upserted);
    out.append(" updated");
    add_if_any(&mut out, s.pruned, ", ", " removed");
    add_if_any(&mut out, s.collections, ", ", " collections");
    add_if_any(&mut out, s.renamed, ", ", " arcade titles");
    let mut matched = text::owned(" found on this device of which ");
    add_count(&mut matched, s.folded);
    matched.append(" matched the server");
    add_if_any(&mut out, s.local, ", ", &matched);
    out.append(")");
    add_if_any(&mut out, s.icons, ", ", " console pictures");
    assert(out@ =~= synced_text(*s));
    out
}

/// How many notes of a BIOS sync are shown.
pub const NOTES_SHOWN: usize = 6;

/// What a BIOS sync says: its headline, and the first of its notes.
pub fn bios_synced(headline: &str, notes: &Vec<String>) -> (r: String)
    ensures
        r@ == (if notes@.len() == 0 {
            headline@
        } else {
            headline@ + "\n"@ + text::join(
                text::texts(notes@).take(if notes@.len() < NOTES_SHOWN {
                    notes@.len() as int
                } else {
                    NOTES_SHOWN as int
                }),
                "\n"@,
            )
        }),
{
    let mut s = text::owned(headline);
    if notes.len() > 0 {
        let n: usize = if notes.len() < NOTES_SHOWN { notes.len() } else { NOTES_SHOWN };
        let some = text::copied(notes, 0, n);
        assert(text::texts(notes@).subrange(0, n as int) =~= text::texts(notes@).take(n as int));
        s.append("\n");
        let l = text::joined(&some, "\n");
        s.append(&l);
    }
    s
}

// ---------------------------------------------------------------------------
// Taking games
// ---------------------------------------------------------------------------

/// What a game's files are named after: its file's name without the extension.
pub open spec fn stem(fs_name: Seq<char>) -> Seq<char> {
    match paths::name(fs_name) {
        Some(n) => library::file_stem(n),
        None => fs_name,
    }
}

/// What a game's files are named after.
pub fn stem_of(fs_name: &str) -> (r: String)
    ensures
        r@ == stem(fs_name@),
{
    match paths::file_name(fs_name) {
        Some(n) => library::stem_of(&n),
        None => text::owned(fs_name),
    }
}

/// The size a download should have, where it is known.
pub fn expected_size(fs_size_bytes: i64) -> (r: Option<u64>)
    ensures
        r == (if fs_size_bytes > 0 {
            Some(fs_size_bytes as u64)
        } else {
            None
        }),
{
    if fs_size_bytes > 0 {
        Some(fs_size_bytes as u64)
    } else {
        None
    }
}

/// How much artwork is wanted.
#[derive(Debug, Clone, Copy, PartialEq, Eq, Structural)]
pub enum Art {
    Nothing,
    Covers,
    Full,
}

/// A piece of media to make sure of: by the kind the list shows, or by its own.
#[derive(Debug)]
pub struct Media {
    pub art: bool,
    pub kind: String,
}

/// The media, as values.
pub open spec fn media_of(v: Seq<Media>) -> Seq<(bool, Seq<char>)> {
    v.map_values(|m: Media| (m.art, m.kind@))
}

/// What the kinds of media are called.
#[derive(Debug)]
pub struct Kinds {
    /// What a list of games shows.
    pub list_art: String,
    /// The pictures that are put together from others.
    pub mixed: String,
    pub videos: String,
    /// Every kind there is.
    pub all: Vec<String>,
}

/// The kinds of media that are not videos.
pub open spec fn no_videos(kinds: Seq<Seq<char>>, videos: Seq<char>) -> Seq<(bool, Seq<char>)>
    decreases kinds.len(),
{
    if kinds.len() == 0 {
        Seq::empty()
    } else {
        let before = no_videos(kinds.drop_last(), videos);
        if kinds.last() == videos {
            before
        } else {
            before.push((false, kinds.last()))
        }
    }
}

/// The media that is wanted for a game, in order: what the list shows, everything
/// but the videos where all of it is wanted, the videos, the manuals.
pub open spec fn wanted_media(
    art: Art,
    videos: bool,
    manuals: bool,
    kinds: Kinds,
) -> Seq<(bool, Seq<char>)> {
    (if art != Art::Nothing {
        seq![(true, kinds.list_art@), (true, kinds.mixed@)]
    } else {
        Seq::empty()
    }) + (if art == Art::Full {
        no_videos(text::texts(kinds.all@), kinds.videos@)
    } else {
        Seq::empty()
    }) + (if videos {
        seq![(false, kinds.videos@)]
    } else {
        Seq::empty()
    }) + (if manuals {
        seq![(false, "manuals"@)]
    } else {
        Seq::empty()
    })
}

/// The media that is wanted for a game.
pub fn media_wanted(art: Art, videos: bool, manuals: bool, kinds: &Kinds) -> (r: Vec<Media>)
    ensures
        media_of(r@) == wanted_media(art, videos, manuals, *kinds),
{
    let mut out: Vec<Media> = Vec::new();
    if art != Art::Nothing {
        out.push(Media { art: true, kind: text::owned(&kinds.list_art) });
        out.push(Media { art: true, kind: text::owned(&kinds.mixed) });
    }
    let ghost first = media_of(out@);
    let ghost all = text::texts(kinds.all@);
    proof {
        assert(first =~= (if art != Art::Nothing {
            seq![(true, kinds.list_art@), (true, kinds.mixed@)]
        } else {
            Seq::empty()
        }));
    }
    if art == Art::Full {
        let mut i: usize = 0;
        assert(first + no_videos(all.take(0), kinds.videos@) =~= first);
        while i < kinds.all.len()
            invariant
                all == text::texts(kinds.all@),
                i <= kinds.all@.len(),
                media_of(out@) == first + no_videos(all.take(i as int), kinds.videos@),
            decreases kinds.all@.len() - i,
        {
            let ghost before = out@;
            proof {
                assert(all.take(i + 1).drop_last() =~= all.take(i as int));
                assert(all[i as int] == kinds.all@[i as int]@);
            }
            if !text::same(&kinds.all[i], &kinds.videos) {
                let m = Media { art: false, kind: text::owned(&kinds.all[i]) };
                let ghost one = (m.art, m.kind@);
                out.push(m);
                assert(media_of(out@) =~= media_of(before).push(one));
                assert(first + no_videos(all.take(i + 1), kinds.videos@) =~= (first + no_videos(all.take(i as int), kinds.videos@)).push(one));
            }
            i += 1;
        }
        assert(all.take(i as int) =~= all);
    }
    let ghost second = media_of(out@);
    if videos {
        let ghost before = out@;
        out.push(Media { art: false, kind: text::owned(&kinds.videos) });
        assert(media_of(out@) =~= media_of(before).push((false, kinds.videos@)));
    }
    if manuals {
        let ghost before = out@;
        out.push(Media { art: false, kind: text::owned("manuals") });
        assert(media_of(out@) =~= media_of(before).push((false, "manuals"@)));
    }
    assert(media_of(out@) =~= wanted_media(art, videos, manuals, *kinds));
    out
}

/// Whether it is time to say how far something has come: at every so many, and at
/// the last.
pub fn time_to_say(done: usize, total: usize, every: usize) -> (r: bool)
    requires
        every > 0,
    ensures
        r == (done as int % every as int == 0 || done == total),
{
    done % every == 0 || done == total
}

/// How far taking a set of games has come.
pub fn set_progress(done: usize, total: usize, games: usize) -> (r: String)
    ensures
        r@ == number::decimal(done as nat) + "/"@ + number::decimal(total as nat) + " — "@ + number::decimal(
            games as nat,
        ) + " downloaded"@,
{
    let mut s = number::decimal_of(done as u128);
    s.append("/");
    add_count(&mut s, total);
    s.append(" — ");
    add_count(&mut s, games);
    s.append(" downloaded");
    s
}

/// What is said of the BIOS files that came with a set, if they were asked for.
pub open spec fn bios_note(bios: Option<Result<Seq<char>, Seq<char>>>) -> Seq<char> {
    match bios {
        None => Seq::empty(),
        Some(Ok(headline)) => "\n"@ + headline,
        Some(Err(e)) => "\nBIOS did not sync: "@ + e,
    }
}

/// What came of the BIOS files, as a value.
pub open spec fn bios_came(bios: Option<Result<String, String>>) -> Option<Result<Seq<char>, Seq<char>>> {
    match bios {
        None => None,
        Some(Ok(h)) => Some(Ok(h@)),
        Some(Err(e)) => Some(Err(e@)),
    }
}

/// What taking a set of games says when it is done.
pub fn set_taken(games: usize, total: usize, bios: &Option<Result<String, String>>) -> (r: String)
    ensures
        r@ == number::decimal(games as nat) + " game(s) downloaded, "@ + number::decimal(total as nat) + " checked"@
            + bios_note(bios_came(*bios)),
{
    let mut s = number::decimal_of(games as u128);
    s.append(" game(s) downloaded, ");
    add_count(&mut s, total);
    s.append(" checked");
    let ghost head = s@;
    match bios {
        None => {},
        Some(Ok(headline)) => {
            s.append("\n");
            s.append(headline);
        },
        Some(Err(e)) => {
            s.append("\nBIOS did not sync: ");
            s.append(e);
        },
    }
    assert(s@ =~= head + bios_note(bios_came(*bios)));
    s
}

/// What came of taking one game.
#[derive(Debug)]
pub enum Taken {
    AlreadyHave(String),
    Downloaded { path: String, verified: String },
}

/// What taking one game says when it is done.
pub fn rom_taken(t: &Taken) -> (r: String)
    ensures
        r@ == (match *t {
            Taken::AlreadyHave(p) => "already had "@ + p@,
            Taken::Downloaded { path, verified } => "downloaded "@ + path@ + " ("@ + verified@ + ")"@,
        }),
{
    match t {
        Taken::AlreadyHave(p) => {
            let mut s = text::owned("already had ");
            s.append(p);
            s
        },
        Taken::Downloaded { path, verified } => {
            let mut s = text::owned("downloaded ");
            s.append(path);
            s.append(" (");
            s.append(verified);
            s.append(")");
            s
        },
    }
}

/// How far looking for artwork has come.
pub fn scrape_progress(done: usize, total: usize, found: usize) -> (r: String)
    ensures
        r@ == number::decimal(done as nat) + "/"@ + number::decimal(total as nat) + " — "@ + number::decimal(
            found as nat,
        ) + " found"@,
{
    let mut s = number::decimal_of(done as u128);
    s.append("/");
    add_count(&mut s, total);
    s.append(" — ");
    add_count(&mut s, found);
    s.append(" found");
    s
}

// ---------------------------------------------------------------------------
// Covers
// ---------------------------------------------------------------------------

/// How many covers are fetched at once.
pub const CONCURRENCY: usize = 8;

/// How many covers are handed over together.
pub const GROUP: usize = 4;

/// A steady stream of fetches: one is started the moment a slot is free, and what
/// has landed is handed over in small groups.
#[derive(Debug)]
pub struct CoverQueue {
    pub total: usize,
    /// How many were started, in order.
    pub started: usize,
    /// How many of them have not landed.
    pub running: usize,
    /// How many have landed and were not handed over.
    pub waiting: usize,
    /// Whether one of those has a cover.
    pub found: bool,
}

impl CoverQueue {
    /// No more run than there are slots, and none that was not started.
    pub open spec fn wf(self) -> bool {
        &&& self.running <= CONCURRENCY
        &&& self.running + self.waiting <= self.started
        &&& self.started <= self.total
        &&& self.waiting == 0 ==> !self.found
    }

    /// A queue of so many covers.
    pub fn new(total: usize) -> (r: CoverQueue)
        ensures
            r.wf(),
            r.total == total,
            r.started == 0,
            r.running == 0,
            r.waiting == 0,
    {
        CoverQueue { total, started: 0, running: 0, waiting: 0, found: false }
    }

    /// The next cover to start, if a slot is free and one is left.
    pub fn start(&mut self) -> (r: Option<usize>)
        requires
            old(self).wf(),
        ensures
            final(self).wf(),
            match r {
                Some(i) => i == old(self).started && i < old(self).total && old(self).running < CONCURRENCY
                    && *final(self) == (CoverQueue {
                    started: (old(self).started + 1) as usize,
                    running: (old(self).running + 1) as usize,
                    ..*old(self)
                }),
                None => *final(self) == *old(self) && (old(self).running == CONCURRENCY || old(self).started
                    == old(self).total),
            },
    {
        if self.running < CONCURRENCY && self.started < self.total {
            let i: usize = self.started;
            self.started = i + 1;
            self.running = self.running + 1;
            Some(i)
        } else {
            None
        }
    }

    /// Takes note that one has landed: with a cover or without, or not at all.
    pub fn landed(&mut self, came: Option<bool>)
        requires
            old(self).wf(),
            old(self).running > 0,
        ensures
            final(self).wf(),
            *final(self) == (match came {
                Some(cover) => CoverQueue {
                    running: (old(self).running - 1) as usize,
                    waiting: (old(self).waiting + 1) as usize,
                    found: old(self).found || cover,
                    ..*old(self)
                },
                None => CoverQueue { running: (old(self).running - 1) as usize, ..*old(self) },
            }),
    {
        self.running = self.running - 1;
        if let Some(cover) = came {
            self.waiting = self.waiting + 1;
            self.found = self.found || cover;
        }
    }

    /// Whether what has landed is handed over now, and whether it is worth showing:
    /// when there is a group of it, or when nothing else is coming in.
    pub fn hand_over(&mut self) -> (r: Option<bool>)
        requires
            old(self).wf(),
        ensures
            final(self).wf(),
            if old(self).waiting >= GROUP || old(self).running == 0 {
                r == Some(old(self).found) && *final(self) == (CoverQueue { waiting: 0, found: false, ..*old(self) })
            } else {
                r is None && *final(self) == *old(self)
            },
    {
        if self.waiting >= GROUP || self.running == 0 {
            let found = self.found;
            self.waiting = 0;
            self.found = false;
            Some(found)
        } else {
            None
        }
    }

    /// Whether everything has been started, has landed and was handed over.
    pub fn is_done(&self) -> (r: bool)
        requires
            self.wf(),
        ensures
            r == (self.started == self.total && self.running == 0 && self.waiting == 0),
    {
        self.started == self.total && self.running == 0 && self.waiting == 0
    }
}

// ---------------------------------------------------------------------------
// Launching
// ---------------------------------------------------------------------------

/// What syncing the saves of a game came to.
#[derive(Debug)]
pub struct AutoSync {
    pub note: Option<String>,
    /// Why it could not be done at all.
    pub failed: Option<String>,
    pub conflicts: Vec<SaveConflict>,
}

/// What is said of a game nobody has.
pub fn no_rom(id: i64) -> (r: Failure)
    ensures
        r@ == seq!["no rom with id "@ + number::int_text(id as int)],
{
    let mut s = text::owned("no rom with id ");
    let n = number::text_of(id);
    s.append(&n);
    Failure::new(&s)
}

/// Whether a game can be launched: there has to be such a game, something to run it
/// with, and the game itself on this machine.
pub fn can_launch(id: i64, known: bool, retroarch: bool, downloaded: bool) -> (r: Result<(), Failure>)
    ensures
        if !known {
            r is Err && r->Err_0@ == seq!["no rom with id "@ + number::int_text(id as int)]
        } else if !retroarch {
            r is Err && r->Err_0@ == seq!["RetroArch not found"@]
        } else if !downloaded {
            r is Err && r->Err_0@ == seq!["not downloaded yet"@]
        } else {
            r is Ok
        },
{
    if !known {
        Err(no_rom(id))
    } else if !retroarch {
        Err(Failure::new("RetroArch not found"))
    } else if !downloaded {
        Err(Failure::new("not downloaded yet"))
    } else {
        Ok(())
    }
}

/// What a launch is doing. Each can take a visible moment, so each is announced.
#[derive(Debug, Clone, Copy, PartialEq, Eq, Structural)]
pub enum Doing {
    Core,
    Shaders,
    Bios,
    Saves,
    Starting,
}

/// What is said while a launch is at something.
pub fn doing_text(d: Doing) -> (r: &'static str)
    ensures
        r@ == (match d {
            Doing::Core => "checking the emulator core…"@,
            Doing::Shaders => "checking shaders…"@,
            Doing::Bios => "checking BIOS files…"@,
            Doing::Saves => "checking saves with the server…"@,
            Doing::Starting => "starting RetroArch…"@,
        }),
{
    match d {
        Doing::Core => "checking the emulator core…",
        Doing::Shaders => "checking shaders…",
        Doing::Bios => "checking BIOS files…",
        Doing::Saves => "checking saves with the server…",
        Doing::Starting => "starting RetroArch…",
    }
}

/// A launch under way, and what there is to say of it so far.
#[derive(Debug)]
pub struct Launch {
    pub name: String,
    pub platform_slug: String,
    /// Set by the retry after a person answered a warning with "play anyway".
    pub skip_sync: bool,
    pub notes: Vec<String>,
}

/// Why a launch stops before the game starts. Each can be answered by the person
/// who launched it.
#[derive(Debug)]
pub enum Stop {
    /// A BIOS file is missing, and could not be fetched either.
    BiosMissing(String),
    /// The saves could not be synced.
    SaveOffline(String),
    /// The saves changed on both sides.
    SaveConflict(Vec<SaveConflict>),
}

/// The notes with one more.
pub open spec fn noted(notes: Seq<String>, note: Seq<char>) -> Seq<Seq<char>> {
    text::texts(notes).push(note)
}

/// The required files that are not there.
pub open spec fn missing_files(required: Seq<(String, bool)>) -> Seq<Seq<char>>
    decreases required.len(),
{
    if required.len() == 0 {
        Seq::empty()
    } else {
        let before = missing_files(required.drop_last());
        if required.last().1 {
            before
        } else {
            before.push(required.last().0@)
        }
    }
}

fn missing_of(required: &Vec<(String, bool)>) -> (r: Vec<String>)
    ensures
        text::texts(r@) == missing_files(required@),
{
    let mut out: Vec<String> = Vec::new();
    let mut i: usize = 0;
    assert(text::texts(out@) =~= missing_files(required@.take(0)));
    while i < required.len()
        invariant
            i <= required@.len(),
            text::texts(out@) == missing_files(required@.take(i as int)),
        decreases required@.len() - i,
    {
        let ghost before = out@;
        assert(required@.take(i + 1).drop_last() =~= required@.take(i as int));
        if !required[i].1 {
            let n = text::owned(&required[i].0);
            out.push(n);
            assert(text::texts(out@) =~= text::texts(before).push(n@));
        }
        i += 1;
    }
    assert(required@.take(i as int) =~= required@);
    out
}

/// What is said of the core, once it was looked for.
pub open spec fn core_note(core: Seq<char>, came: Result<bool, Seq<char>>) -> Option<Seq<char>> {
    match came {
        Ok(true) => Some("downloaded the "@ + core + " core"@),
        Ok(false) => None,
        Err(e) => Some("could not fetch "@ + core + ": "@ + e),
    }
}

/// What is said of the shaders, once they were looked for.
pub open spec fn shaders_note(came: Result<bool, Seq<char>>) -> Option<Seq<char>> {
    match came {
        Ok(true) => Some("downloaded the shader pack"@),
        Ok(false) => None,
        Err(e) => Some("could not fetch shaders: "@ + e),
    }
}

/// What came of looking for something, as a value.
pub open spec fn fetched(came: Result<bool, String>) -> Result<bool, Seq<char>> {
    match came {
        Ok(b) => Ok(b),
        Err(e) => Err(e@),
    }
}

/// What is said of a launch that has ended.
pub open spec fn ended(notes: Seq<Seq<char>>, name: Seq<char>, status: Option<Seq<char>>) -> Seq<char> {
    (if notes.len() == 0 {
        Seq::empty()
    } else {
        text::join(notes, "; "@) + "; "@
    }) + name + (match status {
        None => " exited cleanly"@,
        Some(s) => " exited with "@ + s,
    })
}

/// What syncing had to say, if anything.
pub open spec fn sync_note(note: Option<String>) -> Seq<Seq<char>> {
    match note {
        Some(n) => seq![n@],
        None => Seq::empty(),
    }
}

/// What is said of progress that has not left the machine.
pub open spec fn upload_note(failed: Option<String>) -> Seq<Seq<char>> {
    match failed {
        Some(why) => seq!["saves: NOT uploaded — "@ + why@],
        None => Seq::empty(),
    }
}

impl Launch {
    /// A launch about which there is nothing to say yet.
    pub fn new(name: &str, platform_slug: &str, skip_sync: bool) -> (r: Launch)
        ensures
            r.name@ == name@,
            r.platform_slug@ == platform_slug@,
            r.skip_sync == skip_sync,
            r.notes@.len() == 0,
    {
        Launch {
            name: text::owned(name),
            platform_slug: text::owned(platform_slug),
            skip_sync,
            notes: Vec::new(),
        }
    }

    fn note(&mut self, note: String)
        ensures
            text::texts(final(self).notes@) == noted(old(self).notes@, note@),
            final(self).name == old(self).name,
            final(self).platform_slug == old(self).platform_slug,
            final(self).skip_sync == old(self).skip_sync,
    {
        let ghost before = self.notes@;
        let ghost said = note@;
        self.notes.push(note);
        assert(text::texts(self.notes@) =~= text::texts(before).push(said));
    }

    /// Takes note of the core. Failing to fetch it is not fatal: an offline launch
    /// of an installed core should still work.
    pub fn core_fetched(&mut self, core: &str, came: &Result<bool, String>)
        ensures
            text::texts(final(self).notes@) == (match core_note(core@, fetched(*came)) {
                Some(n) => noted(old(self).notes@, n),
                None => text::texts(old(self).notes@),
            }),
            final(self).name == old(self).name,
            final(self).platform_slug == old(self).platform_slug,
            final(self).skip_sync == old(self).skip_sync,
    {
        match came {
            Ok(true) => {
                let mut s = text::owned("downloaded the ");
                s.append(core);
                s.append(" core");
                self.note(s);
            },
            Ok(false) => {},
            Err(e) => {
                let mut s = text::owned("could not fetch ");
                s.append(core);
                s.append(": ");
                s.append(e);
                self.note(s);
            },
        }
    }

    /// Takes note of the shaders.
    pub fn shaders_fetched(&mut self, came: &Result<bool, String>)
        ensures
            text::texts(final(self).notes@) == (match shaders_note(fetched(*came)) {
                Some(n) => noted(old(self).notes@, n),
                None => text::texts(old(self).notes@),
            }),
            final(self).name == old(self).name,
            final(self).platform_slug == old(self).platform_slug,
            final(self).skip_sync == old(self).skip_sync,
    {
        match came {
            Ok(true) => self.note(text::owned("downloaded the shader pack")),
            Ok(false) => {},
            Err(e) => {
                let mut s = text::owned("could not fetch shaders: ");
                s.append(e);
                self.note(s);
            },
        }
    }

    /// Takes note of the BIOS files. Where they could not be fetched and one that
    /// is required is not there, the launch stops, unless it was told to play
    /// anyway: a black screen with the explanation scrolled past behind it helps
    /// nobody.
    pub fn bios_fetched(&mut self, came: &Result<usize, String>, required: &Vec<(String, bool)>) -> (r: Result<
        (),
        Stop,
    >)
        ensures
            final(self).name == old(self).name,
            final(self).platform_slug == old(self).platform_slug,
            final(self).skip_sync == old(self).skip_sync,
            match *came {
                Ok(n) => r is Ok && text::texts(final(self).notes@) == (if n == 0 {
                    text::texts(old(self).notes@)
                } else {
                    noted(old(self).notes@, "fetched "@ + number::decimal(n as nat) + " BIOS file(s)"@)
                }),
                Err(e) => if !old(self).skip_sync && missing_files(required@).len() > 0 {
                    r matches Err(Stop::BiosMissing(why)) && why@ == "BIOS_MISSING:"@ + old(self).platform_slug@
                        + " needs "@ + text::join(missing_files(required@), ", "@) + " — "@ + e@
                        && text::texts(final(self).notes@) == text::texts(old(self).notes@)
                } else {
                    r is Ok && text::texts(final(self).notes@) == noted(
                        old(self).notes@,
                        "could not fetch BIOS: "@ + e@,
                    )
                },
            },
    {
        match came {
            Ok(n) => {
                if *n > 0 {
                    let mut s = text::owned("fetched ");
                    add_count(&mut s, *n);
                    s.append(" BIOS file(s)");
                    self.note(s);
                }
                Ok(())
            },
            Err(e) => {
                let missing = missing_of(required);
                assert(text::texts(missing@).len() == missing@.len());
                if !self.skip_sync && missing.len() > 0 {
                    let mut s = text::owned("BIOS_MISSING:");
                    s.append(&self.platform_slug);
                    s.append(" needs ");
                    let l = text::joined(&missing, ", ");
                    s.append(&l);
                    s.append(" — ");
                    s.append(e);
                    return Err(Stop::BiosMissing(s));
                }
                let mut s = text::owned("could not fetch BIOS: ");
                s.append(e);
                self.note(s);
                Ok(())
            },
        }
    }

    /// Settles the saves before the game starts, given what syncing them came to;
    /// a launch that was told to play anyway did not sync them.
    ///
    /// Saves that could not be synced stop it, so that a person is asked rather
    /// than an hour put into a stale save. A conflict stops it too: playing on top
    /// of a save whose ownership is unresolved is how the loser is overwritten for
    /// good.
    pub fn before_play(&mut self, sync: Option<AutoSync>) -> (r: Result<(), Stop>)
        ensures
            final(self).name == old(self).name,
            final(self).platform_slug == old(self).platform_slug,
            final(self).skip_sync == old(self).skip_sync,
            match sync {
                None => r is Ok && text::texts(final(self).notes@) == noted(
                    old(self).notes@,
                    "saves: not synced — you chose to play anyway"@,
                ),
                Some(s) => {
                    &&& text::texts(final(self).notes@) == (match s.note {
                        Some(n) => noted(old(self).notes@, n@),
                        None => text::texts(old(self).notes@),
                    })
                    &&& match s.failed {
                        Some(why) => r matches Err(Stop::SaveOffline(said)) && said@ == "SAVE_OFFLINE:"@ + why@,
                        None => if s.conflicts@.len() > 0 {
                            r matches Err(Stop::SaveConflict(cs)) && cs == s.conflicts
                        } else {
                            r is Ok
                        },
                    }
                },
            },
    {
        let s = match sync {
            None => {
                self.note(text::owned("saves: not synced — you chose to play anyway"));
                return Ok(());
            },
            Some(s) => s,
        };
        if let Some(n) = s.note {
            self.note(n);
        }
        if let Some(why) = s.failed {
            let mut said = text::owned("SAVE_OFFLINE:");
            said.append(&why);
            return Err(Stop::SaveOffline(said));
        }
        if s.conflicts.len() > 0 {
            return Err(Stop::SaveConflict(s.conflicts));
        }
        Ok(())
    }

    /// Takes note of how long the game was played, where that was recorded.
    pub fn played(&mut self, recorded: bool, spelled: &str)
        ensures
            text::texts(final(self).notes@) == (if recorded {
                noted(old(self).notes@, "played for "@ + spelled@)
            } else {
                text::texts(old(self).notes@)
            }),
            final(self).name == old(self).name,
            final(self).platform_slug == old(self).platform_slug,
            final(self).skip_sync == old(self).skip_sync,
    {
        if recorded {
            let mut s = text::owned("played for ");
            s.append(spelled);
            self.note(s);
        }
    }

    /// Settles the saves after the game was played. There is nothing left to ask,
    /// so that progress which has not left the machine is noted; the conflicts are
    /// handed back to be settled.
    pub fn after_play(&mut self, sync: Option<AutoSync>) -> (r: Vec<SaveConflict>)
        ensures
            final(self).name == old(self).name,
            final(self).platform_slug == old(self).platform_slug,
            final(self).skip_sync == old(self).skip_sync,
            match sync {
                None => r@.len() == 0 && text::texts(final(self).notes@) == text::texts(old(self).notes@),
                Some(s) => r == s.conflicts && text::texts(final(self).notes@) == text::texts(old(self).notes@)
                    + sync_note(s.note) + upload_note(s.failed),
            },
    {
        let ghost start = text::texts(self.notes@);
        let s = match sync {
            None => {
                return Vec::new();
            },
            Some(s) => s,
        };
        let ghost a = sync_note(s.note);
        let ghost b = upload_note(s.failed);
        if let Some(n) = s.note {
            self.note(n);
        }
        assert(text::texts(self.notes@) =~= start + a);
        if let Some(why) = s.failed {
            let mut said = text::owned("saves: NOT uploaded — ");
            said.append(&why);
            self.note(said);
        }
        assert(text::texts(self.notes@) =~= start + a + b);
        s.conflicts
    }

    /// What the launch says when it has ended: what there is to note, and how the
    /// game ended.
    pub fn finished(&self, status: Option<&str>) -> (r: String)
        ensures
            r@ == ended(text::texts(self.notes@), self.name@, text::opt_str(status)),
    {
        let mut s: String = String::new();
        assert(text::texts(self.notes@).len() == self.notes@.len());
        if self.notes.len() > 0 {
            s = text::joined(&self.notes, "; ");
            s.append("; ");
        }
        s.append(&self.name);
        match status {
            None => s.append(" exited cleanly"),
            Some(code) => {
                s.append(" exited with ");
                s.append(code);
            },
        }
        assert(s@ =~= ended(text::texts(self.notes@), self.name@, text::opt_str(status)));
        s
    }
}

// ---------------------------------------------------------------------------
// Pictures
// ---------------------------------------------------------------------------

/// The set to fetch, and whether it is to be chosen too: the one that is chosen, or
/// the one to start with.
pub fn set_to_fetch(chosen: &str, otherwise: &str) -> (r: (String, bool))
    ensures
        chosen@.len() == 0 ==> r.0@ == otherwise@ && r.1,
        chosen@.len() > 0 ==> r.0@ == chosen@ && !r.1,
{
    if text::is_empty(chosen) {
        (text::owned(otherwise), true)
    } else {
        (text::owned(chosen), false)
    }
}

/// How many pictures were written in each style, apart from those with none.
pub open spec fn styles_text(styles: Seq<(String, usize)>) -> Seq<Seq<char>>
    decreases styles.len(),
{
    if styles.len() == 0 {
        Seq::empty()
    } else {
        let before = styles_text(styles.drop_last());
        let (label, n) = styles.last();
        if n == 0 {
            before
        } else {
            before.push(number::decimal(n as nat) + " "@ + crypto::unicode_lower(label@))
        }
    }
}

/// What fetching a set of pictures says when it is done: how many in each style. A
/// style with none is not kept, and a set with none is a failure.
pub fn icons_fetched(dir: &str, styles: &Vec<(String, usize)>) -> (r: Result<String, Failure>)
    ensures
        ({
            let said = styles_text(styles@);
            if said.len() == 0 {
                r is Err && r->Err_0@ == seq![dir@ + ": no console pictures could be fetched"@]
            } else {
                r is Ok && r->Ok_0@ == text::join(said, ", "@)
            }
        }),
{
    let mut out: Vec<String> = Vec::new();
    let mut i: usize = 0;
    assert(text::texts(out@) =~= styles_text(styles@.take(0)));
    while i < styles.len()
        invariant
            i <= styles@.len(),
            text::texts(out@) == styles_text(styles@.take(i as int)),
        decreases styles@.len() - i,
    {
        let ghost before = out@;
        assert(styles@.take(i + 1).drop_last() =~= styles@.take(i as int));
        if styles[i].1 > 0 {
            let mut s = number::decimal_of(styles[i].1 as u128);
            s.append(" ");
            let l = crypto::lowercase(&styles[i].0);
            s.append(&l);
            out.push(s);
            assert(text::texts(out@) =~= text::texts(before).push(s@));
        }
        i += 1;
    }
    assert(styles@.take(i as int) =~= styles@);
    assert(text::texts(out@).len() == out@.len());
    if out.len() == 0 {
        let mut s = text::owned(dir);
        s.append(": no console pictures could be fetched");
        return Err(Failure::new(&s));
    }
    Ok(text::joined(&out, ", "))
}

/// Where the files of an icon may be, in order: inside the bundle, in either of two
/// places, and beside the source.
pub open spec fn icon_places(resources: Option<Seq<char>>, id: Seq<char>) -> Seq<Seq<char>> {
    (match resources {
        Some(r) => seq![
            paths::joined(paths::joined(r, "_up_/assets/appicons/built"@), id),
            paths::joined(paths::joined(r, "assets/appicons/built"@), id),
        ],
        None => Seq::empty(),
    }).push(paths::joined("assets/appicons/built"@, id))
}

/// The places an icon's files may be at, in the order they are tried.
pub fn appicon_places(resources: Option<&str>, id: &str) -> (r: Vec<String>)
    ensures
        text::texts(r@) == icon_places(text::opt_str(resources), id@),
{
    let mut places: Vec<String> = Vec::new();
    if let Some(res) = resources {
        let a = paths::join(res, "_up_/assets/appicons/built");
        places.push(paths::join(&a, id));
        let b = paths::join(res, "assets/appicons/built");
        places.push(paths::join(&b, id));
    }
    places.push(paths::join("assets/appicons/built", id));
    assert(text::texts(places@) =~= icon_places(text::opt_str(resources), id@));
    places
}

/// Where the files of an icon are: the first of the places that is a directory.
pub fn appicon_dir(resources: Option<&str>, id: &str, dirs: &Vec<String>) -> (r: Option<String>)
    ensures
        text::opt(r) == worker::first_there(icon_places(text::opt_str(resources), id@), text::texts(dirs@)),
{
    worker::find_cache(&appicon_places(resources, id), dirs)
}

/// What came of putting an icon on.
#[derive(Debug)]
pub enum Worn {
    /// The window has it.
    Now,
    /// It would not load.
    WouldNotLoad(String),
    /// The next launch has it.
    NextLaunch,
    /// The bundle has it, and shows it after a restart.
    AfterRestart,
    /// The bundle could not be written.
    BundleNotWritten(String),
    /// There is no bundle.
    NextBuild,
    /// The launcher takes it from the installed app.
    NextInstalledBuild,
}

/// What is said of putting an icon on. It claims no more than was done.
pub fn icon_worn(w: &Worn) -> (r: String)
    ensures
        r@ == (match *w {
            Worn::Now => "Icon changed."@,
            Worn::WouldNotLoad(e) => "Saved, but the icon would not load: "@ + e@,
            Worn::NextLaunch => "Saved. It will be worn from the next launch."@,
            Worn::AfterRestart => "Icon changed — it will show after the app is restarted."@,
            Worn::BundleNotWritten(e) => "Saved, but the app bundle could not be written ("@ + e@
                + "). The icon will be right in the next build."@,
            Worn::NextBuild => "Saved. It will be worn by the next build of the app."@,
            Worn::NextInstalledBuild =>
                "Saved. Android takes its launcher icon from the installed app, so this one will be worn by the next build."@,
        }),
{
    match w {
        Worn::Now => text::owned("Icon changed."),
        Worn::WouldNotLoad(e) => {
            let mut s = text::owned("Saved, but the icon would not load: ");
            s.append(e);
            s
        },
        Worn::NextLaunch => text::owned("Saved. It will be worn from the next launch."),
        Worn::AfterRestart => text::owned("Icon changed — it will show after the app is restarted."),
        Worn::BundleNotWritten(e) => {
            let mut s = text::owned("Saved, but the app bundle could not be written (");
            s.append(e);
            s.append("). The icon will be right in the next build.");
            s
        },
        Worn::NextBuild => text::owned("Saved. It will be worn by the next build of the app."),
        Worn::NextInstalledBuild => text::owned(
            "Saved. Android takes its launcher icon from the installed app, so this one will be worn by the next build.",
        ),
    }
}

} // verus!
