//! What the desktop window's longer jobs do, step by step: what comes next, what
//! is kept of what came, and when to stop.

use vstd::prelude::*;
use crate::desktop;
use crate::desktop::{AutoSync, Launch, LibrarySync, Pass, Stop};
use crate::failure::Failure;
use crate::number;
use crate::text;
use crate::worker::SaveConflict;

verus! {

// ---------------------------------------------------------------------------
// Launching a game
// ---------------------------------------------------------------------------

/// A step of a launch.
#[derive(Debug, Clone, Copy, PartialEq, Eq, Structural)]
pub enum Step {
    /// Make sure of the core.
    Core,
    /// Make sure of the shaders.
    Shaders,
    /// Make sure of the BIOS files.
    Bios,
    /// Work out how to launch it.
    Plan,
    /// Sync the saves before the game starts.
    SavesBefore,
    /// Start the game, and wait until it ends.
    Play,
    /// Sync the saves after it has ended.
    SavesAfter,
    Finished,
}

/// What came of a step.
#[derive(Debug)]
pub enum Event {
    Core { core: String, came: Result<bool, String> },
    Shaders(Result<bool, String>),
    /// With the files that are required, and whether each is there.
    Bios { fetched: Result<usize, String>, required: Vec<(String, bool)> },
    Planned(Result<(), String>),
    SavesBefore(AutoSync),
    /// Whether the time was recorded, the time in words, and how the game ended
    /// where it did not end well.
    Played { recorded: bool, spelled: String, status: Option<String> },
    /// The game could not be started.
    NotPlayed(String),
    SavesAfter(AutoSync),
}

/// Why a launch stops.
#[derive(Debug)]
pub enum Halt {
    /// Something a person can answer.
    Ask(Stop),
    Failed(String),
}

/// Why a launch stops, as a value.
pub enum Halted {
    BiosMissing(Seq<char>),
    SaveOffline(Seq<char>),
    SaveConflict(Vec<SaveConflict>),
    Failed(Seq<char>),
}

impl View for Halt {
    type V = Halted;

    open spec fn view(&self) -> Halted {
        match self {
            Halt::Ask(Stop::BiosMissing(why)) => Halted::BiosMissing(why@),
            Halt::Ask(Stop::SaveOffline(why)) => Halted::SaveOffline(why@),
            Halt::Ask(Stop::SaveConflict(cs)) => Halted::SaveConflict(*cs),
            Halt::Failed(why) => Halted::Failed(why@),
        }
    }
}

/// A launch under way.
#[derive(Debug)]
pub struct LaunchFlow {
    pub launch: Launch,
    /// The step it is at.
    pub at: Step,
    /// Whether there is a core to make sure of, and somewhere to fetch it from.
    pub core: bool,
    pub shaders: bool,
    /// How the game ended, where it did not end well.
    pub status: Option<String>,
    /// The saves that changed on both sides, to be settled.
    pub conflicts: Vec<SaveConflict>,
}

/// The first step of a launch.
pub open spec fn first_step(core: bool) -> Step {
    if core {
        Step::Core
    } else {
        Step::Plan
    }
}

/// The step that something came of.
pub open spec fn step_of(e: Event) -> Step {
    match e {
        Event::Core { .. } => Step::Core,
        Event::Shaders(_) => Step::Shaders,
        Event::Bios { .. } => Step::Bios,
        Event::Planned(_) => Step::Plan,
        Event::SavesBefore(_) => Step::SavesBefore,
        Event::Played { .. } => Step::Play,
        Event::NotPlayed(_) => Step::Play,
        Event::SavesAfter(_) => Step::SavesAfter,
    }
}

/// The step after the one that something came of.
pub open spec fn step_after(e: Event, shaders: bool, skip_sync: bool) -> Step {
    match e {
        Event::Core { .. } => if shaders {
            Step::Shaders
        } else {
            Step::Bios
        },
        Event::Shaders(_) => Step::Bios,
        Event::Bios { .. } => Step::Plan,
        Event::Planned(_) => if skip_sync {
            Step::Play
        } else {
            Step::SavesBefore
        },
        Event::SavesBefore(_) => Step::Play,
        Event::Played { .. } => if skip_sync {
            Step::Finished
        } else {
            Step::SavesAfter
        },
        Event::NotPlayed(_) => Step::Finished,
        Event::SavesAfter(_) => Step::Finished,
    }
}

/// A note, if there is one.
pub open spec fn one_note(n: Option<Seq<char>>) -> Seq<Seq<char>> {
    match n {
        Some(t) => seq![t],
        None => Seq::empty(),
    }
}

/// Whether a launch stops on BIOS files that could not be fetched.
pub open spec fn bios_stops(skip_sync: bool, required: Seq<(String, bool)>) -> bool {
    !skip_sync && desktop::missing_files(required).len() > 0
}

/// What there is to note of what came.
pub open spec fn notes_of(l: Launch, e: Event) -> Seq<Seq<char>> {
    match e {
        Event::Core { core, came } => one_note(desktop::core_note(core@, desktop::fetched(came))),
        Event::Shaders(came) => one_note(desktop::shaders_note(desktop::fetched(came))),
        Event::Bios { fetched: came, required } => match came {
            Ok(n) => if n == 0 {
                Seq::empty()
            } else {
                seq!["fetched "@ + number::decimal(n as nat) + " BIOS file(s)"@]
            },
            Err(why) => if bios_stops(l.skip_sync, required@) {
                Seq::empty()
            } else {
                seq!["could not fetch BIOS: "@ + why@]
            },
        },
        Event::Planned(Ok(_)) => if l.skip_sync {
            seq!["saves: not synced — you chose to play anyway"@]
        } else {
            Seq::empty()
        },
        Event::Planned(Err(_)) => Seq::empty(),
        Event::SavesBefore(s) => desktop::sync_note(s.note),
        Event::Played { recorded, spelled, .. } => if recorded {
            seq!["played for "@ + spelled@]
        } else {
            Seq::empty()
        },
        Event::NotPlayed(_) => Seq::empty(),
        Event::SavesAfter(s) => desktop::sync_note(s.note) + desktop::upload_note(s.failed),
    }
}

/// Why a launch stops on what came, if it does.
pub open spec fn halts_on(l: Launch, e: Event) -> Option<Halted> {
    match e {
        Event::Bios { fetched: Err(why), required } => if bios_stops(l.skip_sync, required@) {
            Some(
                Halted::BiosMissing(
                    "BIOS_MISSING:"@ + l.platform_slug@ + " needs "@ + text::join(
                        desktop::missing_files(required@),
                        ", "@,
                    ) + " — "@ + why@,
                ),
            )
        } else {
            None
        },
        Event::Planned(Err(why)) => Some(Halted::Failed(why@)),
        Event::SavesBefore(s) => match s.failed {
            Some(why) => Some(Halted::SaveOffline("SAVE_OFFLINE:"@ + why@)),
            None => if s.conflicts@.len() > 0 {
                Some(Halted::SaveConflict(s.conflicts))
            } else {
                None
            },
        },
        Event::NotPlayed(why) => Some(Halted::Failed(why@)),
        _ => None,
    }
}

impl LaunchFlow {
    /// A launch about to begin.
    pub fn new(launch: Launch, core: bool, shaders: bool) -> (r: LaunchFlow)
        ensures
            r.launch == launch,
            r.at == first_step(core),
            r.core == core,
            r.shaders == shaders,
            r.status is None,
            r.conflicts@.len() == 0,
    {
        let at = if core {
            Step::Core
        } else {
            Step::Plan
        };
        LaunchFlow { launch, at, core, shaders, status: None, conflicts: Vec::new() }
    }

    /// What it does first.
    pub fn begin(&self) -> (r: Step)
        ensures
            r == first_step(self.core),
    {
        if self.core {
            Step::Core
        } else {
            Step::Plan
        }
    }

    /// Takes in what came of the step it is at, and says what comes next or why it
    /// stops.
    pub fn came(&mut self, e: Event) -> (r: Result<Step, Halt>)
        requires
            step_of(e) == old(self).at,
        ensures
            final(self).at == (match r {
                Ok(next) => next,
                Err(_) => old(self).at,
            }),
            text::texts(final(self).launch.notes@) == text::texts(old(self).launch.notes@) + notes_of(
                old(self).launch,
                e,
            ),
            final(self).launch.name == old(self).launch.name,
            final(self).launch.platform_slug == old(self).launch.platform_slug,
            final(self).launch.skip_sync == old(self).launch.skip_sync,
            final(self).core == old(self).core,
            final(self).shaders == old(self).shaders,
            final(self).status == (match e {
                Event::Played { status, .. } => status,
                _ => old(self).status,
            }),
            final(self).conflicts == (match e {
                Event::SavesAfter(s) => s.conflicts,
                _ => old(self).conflicts,
            }),
            match halts_on(old(self).launch, e) {
                Some(h) => r is Err && r->Err_0@ == h,
                None => r == Ok::<Step, Halt>(step_after(e, old(self).shaders, old(self).launch.skip_sync)),
            },
    {
        let r = self.take_in(e);
        if let Ok(next) = &r {
            self.at = *next;
        }
        r
    }

    fn take_in(&mut self, e: Event) -> (r: Result<Step, Halt>)
        ensures
            text::texts(final(self).launch.notes@) == text::texts(old(self).launch.notes@) + notes_of(
                old(self).launch,
                e,
            ),
            final(self).launch.name == old(self).launch.name,
            final(self).launch.platform_slug == old(self).launch.platform_slug,
            final(self).launch.skip_sync == old(self).launch.skip_sync,
            final(self).at == old(self).at,
            final(self).core == old(self).core,
            final(self).shaders == old(self).shaders,
            final(self).status == (match e {
                Event::Played { status, .. } => status,
                _ => old(self).status,
            }),
            final(self).conflicts == (match e {
                Event::SavesAfter(s) => s.conflicts,
                _ => old(self).conflicts,
            }),
            match halts_on(old(self).launch, e) {
                Some(h) => r is Err && r->Err_0@ == h,
                None => r == Ok::<Step, Halt>(step_after(e, old(self).shaders, old(self).launch.skip_sync)),
            },
    {
        let ghost event = e;
        let ghost was = text::texts(self.launch.notes@);
        let ghost l = self.launch;
        let shaders = self.shaders;
        let skip = self.launch.skip_sync;
        match e {
            Event::Core { core, came } => {
                self.launch.core_fetched(&core, &came);
                assert(text::texts(self.launch.notes@) =~= was + notes_of(l, event));
                Ok(if shaders { Step::Shaders } else { Step::Bios })
            },
            Event::Shaders(came) => {
                self.launch.shaders_fetched(&came);
                assert(text::texts(self.launch.notes@) =~= was + notes_of(l, event));
                Ok(Step::Bios)
            },
            Event::Bios { fetched: came, required } => {
                let r = self.launch.bios_fetched(&came, &required);
                assert(text::texts(self.launch.notes@) =~= was + notes_of(l, event));
                match r {
                    Ok(_) => Ok(Step::Plan),
                    Err(stop) => Err(Halt::Ask(stop)),
                }
            },
            Event::Planned(Err(why)) => {
                assert(was + notes_of(l, event) =~= was);
                Err(Halt::Failed(why))
            },
            Event::Planned(Ok(_)) => {
                if skip {
                    let r = self.launch.before_play(None);
                    assert(text::texts(self.launch.notes@) =~= was + notes_of(l, event));
                    match r {
                        Ok(_) => Ok(Step::Play),
                        Err(stop) => Err(Halt::Ask(stop)),
                    }
                } else {
                    assert(was + notes_of(l, event) =~= was);
                    Ok(Step::SavesBefore)
                }
            },
            Event::SavesBefore(sync) => {
                let r = self.launch.before_play(Some(sync));
                assert(text::texts(self.launch.notes@) =~= was + notes_of(l, event));
                match r {
                    Ok(_) => Ok(Step::Play),
                    Err(stop) => Err(Halt::Ask(stop)),
                }
            },
            Event::Played { recorded, spelled, status } => {
                self.launch.played(recorded, &spelled);
                assert(text::texts(self.launch.notes@) =~= was + notes_of(l, event));
                self.status = status;
                Ok(if skip { Step::Finished } else { Step::SavesAfter })
            },
            Event::NotPlayed(why) => {
                assert(was + notes_of(l, event) =~= was);
                Err(Halt::Failed(why))
            },
            Event::SavesAfter(sync) => {
                self.conflicts = self.launch.after_play(Some(sync));
                assert(text::texts(self.launch.notes@) =~= was + notes_of(l, event));
                Ok(Step::Finished)
            },
        }
    }

    /// What the launch says when it has ended.
    pub fn finished(&self) -> (r: String)
        ensures
            r@ == desktop::ended(text::texts(self.launch.notes@), self.launch.name@, text::opt(self.status)),
    {
        match &self.status {
            Some(s) => self.launch.finished(Some(s)),
            None => self.launch.finished(None),
        }
    }
}

/// No game is started on saves that could not be looked at or that changed on both
/// sides, unless a person said to play anyway; and none before it is known how.
pub proof fn law_no_game_starts_on_unresolved_saves(l: Launch, e: Event, shaders: bool)
    requires
        halts_on(l, e) is None,
        step_after(e, shaders, l.skip_sync) == Step::Play,
    ensures
        l.skip_sync ==> (e matches Event::Planned(p) && p is Ok) || e is SavesBefore,
        !l.skip_sync ==> (e matches Event::SavesBefore(s) && s.failed is None && s.conflicts@.len() == 0),
{
}

// ---------------------------------------------------------------------------
// Syncing the library
// ---------------------------------------------------------------------------

/// What came of a pass of a sync of the library. What could not be had counts as
/// nothing, but for the games themselves.
#[derive(Debug)]
pub enum PassEvent {
    /// The games found on this device.
    Local(Option<usize>),
    /// The server's settings were asked for.
    Checked,
    Games(Result<Fetched, String>),
    Collections(Option<usize>),
    Pictures(Option<usize>),
}

/// What a fetch of the games came to.
#[derive(Debug, Clone, Copy)]
pub struct Fetched {
    pub platforms: usize,
    pub upserted: usize,
    pub incremental: bool,
    pub pruned: Option<usize>,
}

/// A count, or nothing where it could not be had.
pub open spec fn or_none(n: Option<usize>) -> usize {
    match n {
        Some(k) => k,
        None => 0,
    }
}

fn or_none_of(n: Option<usize>) -> (r: usize)
    ensures
        r == or_none(n),
{
    match n {
        Some(k) => k,
        None => 0,
    }
}

/// The pass that something came of.
pub open spec fn pass_of(e: PassEvent) -> Pass {
    match e {
        PassEvent::Local(_) => Pass::Local,
        PassEvent::Checked => Pass::Server,
        PassEvent::Games(_) => Pass::Games,
        PassEvent::Collections(_) => Pass::Collections,
        PassEvent::Pictures(_) => Pass::Pictures,
    }
}

/// What is known of a sync after something came.
pub open spec fn counted(s: LibrarySync, e: PassEvent) -> LibrarySync {
    match e {
        PassEvent::Local(n) => LibrarySync { local: or_none(n), ..s },
        PassEvent::Checked => s,
        PassEvent::Games(Ok(f)) => LibrarySync {
            platforms: f.platforms,
            upserted: f.upserted,
            incremental: f.incremental,
            pruned: or_none(f.pruned),
            ..s
        },
        PassEvent::Games(Err(_)) => s,
        PassEvent::Collections(n) => LibrarySync { collections: or_none(n), ..s },
        PassEvent::Pictures(n) => LibrarySync { icons: or_none(n), ..s },
    }
}

/// What is known of a sync before anything came.
pub open spec fn nothing_yet() -> LibrarySync {
    LibrarySync {
        incremental: false,
        total: 0,
        platforms: 0,
        upserted: 0,
        pruned: 0,
        collections: 0,
        renamed: 0,
        local: 0,
        folded: 0,
        icons: 0,
    }
}

/// A sync of the library under way.
#[derive(Debug)]
pub struct LibraryFlow {
    pub has_server: bool,
    pub sum: LibrarySync,
}

impl LibraryFlow {
    /// A sync about to begin, with this machine first.
    pub fn new(has_server: bool) -> (r: (LibraryFlow, Pass))
        ensures
            r.0.has_server == has_server,
            r.0.sum == nothing_yet(),
            r.1 == Pass::Local,
    {
        let sum = LibrarySync {
            incremental: false,
            total: 0,
            platforms: 0,
            upserted: 0,
            pruned: 0,
            collections: 0,
            renamed: 0,
            local: 0,
            folded: 0,
            icons: 0,
        };
        (LibraryFlow { has_server, sum }, Pass::Local)
    }

    /// Takes in what came of a pass, and says which comes next. Only the games
    /// themselves can stop it.
    pub fn came(&mut self, e: PassEvent) -> (r: Result<Pass, String>)
        ensures
            final(self).has_server == old(self).has_server,
            final(self).sum == counted(old(self).sum, e),
            match e {
                PassEvent::Games(Err(why)) => r is Err && r->Err_0@ == why@,
                _ => r == Ok::<Pass, String>(
                    match pass_of(e) {
                        Pass::Local => if old(self).has_server {
                            Pass::Server
                        } else {
                            Pass::Done
                        },
                        Pass::Server => Pass::Games,
                        Pass::Games => Pass::Collections,
                        Pass::Collections => Pass::Pictures,
                        _ => Pass::Done,
                    },
                ),
            },
    {
        match e {
            PassEvent::Local(n) => {
                self.sum.local = or_none_of(n);
                Ok(desktop::next_pass(Pass::Local, self.has_server))
            },
            PassEvent::Checked => Ok(desktop::next_pass(Pass::Server, self.has_server)),
            PassEvent::Games(Err(why)) => Err(why),
            PassEvent::Games(Ok(f)) => {
                self.sum.platforms = f.platforms;
                self.sum.upserted = f.upserted;
                self.sum.incremental = f.incremental;
                self.sum.pruned = or_none_of(f.pruned);
                Ok(desktop::next_pass(Pass::Games, self.has_server))
            },
            PassEvent::Collections(n) => {
                self.sum.collections = or_none_of(n);
                Ok(desktop::next_pass(Pass::Collections, self.has_server))
            },
            PassEvent::Pictures(n) => {
                self.sum.icons = or_none_of(n);
                Ok(desktop::next_pass(Pass::Pictures, self.has_server))
            },
        }
    }

    /// What the sync says when it is done. The arcade titles go back, and the games
    /// on both sides are folded, after everything else.
    pub fn finished(&self, total: usize, renamed: usize, folded: usize, roms_dir: &str) -> (r: String)
        ensures
            r@ == (if self.has_server {
                desktop::synced_text(LibrarySync { total, renamed, folded, ..self.sum })
            } else if total == 0 {
                "No games found under "@ + roms_dir@ + " and no server configured."@
            } else {
                number::decimal(total as nat) + " games found on this device. No server configured."@
            }),
    {
        if self.has_server {
            let mut s = self.sum;
            s.total = total;
            s.renamed = renamed;
            s.folded = folded;
            desktop::synced(&s)
        } else {
            desktop::without_server(total, roms_dir)
        }
    }
}

// ---------------------------------------------------------------------------
// Taking a set of games
// ---------------------------------------------------------------------------

/// A set of games being taken, one after the other.
#[derive(Debug)]
pub struct SetFlow {
    pub total: usize,
    pub done: usize,
    /// How many of them were downloaded.
    pub games: usize,
}

impl SetFlow {
    /// No more were downloaded than were looked at, and no more looked at than
    /// there are.
    pub open spec fn wf(self) -> bool {
        self.games <= self.done <= self.total
    }

    pub fn new(total: usize) -> (r: SetFlow)
        ensures
            r.wf(),
            r == (SetFlow { total, done: 0, games: 0 }),
    {
        SetFlow { total, done: 0, games: 0 }
    }

    /// The next game, if one is left.
    pub fn next(&self) -> (r: Option<usize>)
        requires
            self.wf(),
        ensures
            r == (if self.done < self.total {
                Some(self.done)
            } else {
                None
            }),
    {
        if self.done < self.total {
            Some(self.done)
        } else {
            None
        }
    }

    /// Takes in that a game was looked at, and whether it was downloaded, where it
    /// was not here. Says how far it has come, now and then.
    pub fn took(&mut self, downloaded: Option<bool>) -> (r: Option<String>)
        requires
            old(self).wf(),
            old(self).done < old(self).total,
        ensures
            final(self).wf(),
            final(self).total == old(self).total,
            final(self).done == old(self).done + 1,
            final(self).games == old(self).games + (if downloaded == Some(true) {
                1int
            } else {
                0
            }),
            text::opt(r) == (if final(self).done as int % 5 == 0 || final(self).done == final(self).total {
                Some(
                    number::decimal(final(self).done as nat) + "/"@ + number::decimal(final(self).total as nat) + " — "@
                        + number::decimal(final(self).games as nat) + " downloaded"@,
                )
            } else {
                None
            }),
    {
        self.done = self.done + 1;
        if let Some(true) = downloaded {
            self.games = self.games + 1;
        }
        if desktop::time_to_say(self.done, self.total, 5) {
            Some(desktop::set_progress(self.done, self.total, self.games))
        } else {
            None
        }
    }

    /// What it says when it is done.
    pub fn finished(&self, bios: &Option<Result<String, String>>) -> (r: String)
        ensures
            r@ == number::decimal(self.games as nat) + " game(s) downloaded, "@ + number::decimal(self.total as nat)
                + " checked"@ + desktop::bios_note(desktop::bios_came(*bios)),
    {
        desktop::set_taken(self.games, self.total, bios)
    }
}

/// What a search for artwork begins with: nothing to do, or how much there is.
pub fn scrape_begins(missing: usize) -> (r: Result<String, String>)
    ensures
        missing == 0 ==> r is Err && r->Err_0@ == "every game already has artwork"@,
        missing > 0 ==> r is Ok && r->Ok_0@ == number::decimal(missing as nat) + " to look up…"@,
{
    if missing == 0 {
        Err(text::owned("every game already has artwork"))
    } else {
        let mut s = number::decimal_of(missing as u128);
        s.append(" to look up…");
        Ok(s)
    }
}

/// Whether it is time to say again how far a download has come: the window does
/// not need to hear of every piece.
pub fn due_again(milliseconds: u128) -> (r: bool)
    ensures
        r == (milliseconds >= 100),
{
    milliseconds >= 100
}

// ---------------------------------------------------------------------------
// Fetching a set of pictures
// ---------------------------------------------------------------------------

/// What came of trying one name of a console.
#[derive(Debug, Clone, Copy, PartialEq, Eq, Structural)]
pub enum Tried {
    /// The set has no picture of that name.
    NoPicture,
    /// It could not be fetched.
    NotFetched,
    /// It was fetched, and this says whether it could be written.
    Fetched(bool),
}

/// A set of pictures being fetched, style by style.
#[derive(Debug)]
pub struct IconFlow {
    /// How many pictures there may be, over all styles.
    pub total: usize,
    pub done: usize,
    /// How many were written in this style.
    pub written: usize,
    /// How many were written in each style that is over.
    pub styles: Vec<(String, usize)>,
}

impl IconFlow {
    /// No more were written than were looked for, and no more looked for than
    /// there may be.
    pub open spec fn wf(self) -> bool {
        self.written <= self.done <= self.total
    }

    /// So many consoles in so many styles. `None` if there are more than can be
    /// counted.
    pub fn new(styles: usize, consoles: usize) -> (r: Option<IconFlow>)
        ensures
            match r {
                Some(f) => f.wf() && f.total == styles * consoles && f.done == 0 && f.written == 0 && f.styles@.len()
                    == 0,
                None => styles * consoles > usize::MAX,
            },
    {
        match styles.checked_mul(consoles) {
            Some(total) => Some(IconFlow { total, done: 0, written: 0, styles: Vec::new() }),
            None => None,
        }
    }

    /// Takes in that the next console is looked for, and says how far it has come,
    /// now and then.
    pub fn looks(&mut self) -> (r: Option<String>)
        requires
            old(self).wf(),
            old(self).done < old(self).total,
        ensures
            final(self).wf(),
            final(self).done == old(self).done + 1,
            final(self).total == old(self).total,
            final(self).written == old(self).written,
            final(self).styles == old(self).styles,
            text::opt(r) == (if final(self).done as int % 8 == 0 {
                Some(
                    number::decimal(final(self).done as nat) + " of "@ + number::decimal(final(self).total as nat)
                        + "…"@,
                )
            } else {
                None
            }),
    {
        self.done = self.done + 1;
        if self.done % 8 == 0 {
            let mut s = number::decimal_of(self.done as u128);
            s.append(" of ");
            let t = number::decimal_of(self.total as u128);
            s.append(&t);
            s.append("…");
            Some(s)
        } else {
            None
        }
    }

    /// Takes in what came of one name of a console, and says whether to try the
    /// next. A picture that was fetched ends it, written or not.
    pub fn tried(&mut self, t: Tried) -> (r: bool)
        requires
            old(self).wf(),
            old(self).written < old(self).done,
        ensures
            final(self).wf(),
            r == !(t is Fetched),
            final(self).written == old(self).written + (if t == Tried::Fetched(true) {
                1int
            } else {
                0
            }),
            final(self).done == old(self).done,
            final(self).total == old(self).total,
            final(self).styles == old(self).styles,
    {
        match t {
            Tried::Fetched(ok) => {
                if ok {
                    self.written = self.written + 1;
                }
                false
            },
            _ => true,
        }
    }

    /// Takes in that a style is over, and says whether it is kept: one with nothing
    /// in it would show an empty grid.
    pub fn style_over(&mut self, label: &str) -> (r: bool)
        requires
            old(self).wf(),
        ensures
            final(self).wf(),
            r == (old(self).written > 0),
            final(self).written == 0,
            final(self).done == old(self).done,
            final(self).total == old(self).total,
            r ==> final(self).styles@.len() == old(self).styles@.len() + 1 && final(self).styles@.drop_last()
                == old(self).styles@ && final(self).styles@.last().0@ == label@ && final(self).styles@.last().1
                == old(self).written,
            !r ==> final(self).styles == old(self).styles,
    {
        let n: usize = self.written;
        self.written = 0;
        if n > 0 {
            let ghost before = self.styles@;
            self.styles.push((text::owned(label), n));
            assert(self.styles@.drop_last() =~= before);
            true
        } else {
            false
        }
    }

    /// What fetching the set says when it is done.
    pub fn finished(&self, dir: &str) -> (r: Result<String, Failure>)
        ensures
            ({
                let said = desktop::styles_text(self.styles@);
                if said.len() == 0 {
                    r is Err && r->Err_0@ == seq![dir@ + ": no console pictures could be fetched"@]
                } else {
                    r is Ok && r->Ok_0@ == text::join(said, ", "@)
                }
            }),
    {
        desktop::icons_fetched(dir, &self.styles)
    }
}

/// What is said of a set that has no artwork.
pub fn no_artwork(dir: &str) -> (r: Failure)
    ensures
        r@ == seq!["no artwork recorded for "@ + dir@],
{
    let mut s = text::owned("no artwork recorded for ");
    s.append(dir);
    Failure::new(&s)
}

/// An icon the app can wear, and the picture of it where there is one.
#[derive(Debug)]
pub struct AppIcon {
    pub id: String,
    pub label: String,
    pub preview: Option<String>,
}

/// An icon as the settings show it.
#[derive(Debug)]
pub struct AppIconView {
    pub id: String,
    pub label: String,
    pub preview: String,
    pub selected: bool,
}

/// Whether an icon is shown as it is: with its picture, and marked if it is worn.
pub open spec fn shows_icon(v: AppIconView, i: AppIcon, chosen: Seq<char>) -> bool {
    &&& v.id@ == i.id@
    &&& v.label@ == i.label@
    &&& v.preview@ == (match i.preview {
        Some(p) => p@,
        None => Seq::empty(),
    })
    &&& v.selected == (i.id@ == chosen)
}

/// The icons as the settings show them.
pub fn app_icons(icons: &Vec<AppIcon>, chosen: &str) -> (r: Vec<AppIconView>)
    ensures
        r@.len() == icons@.len(),
        forall|k: int| 0 <= k < r@.len() ==> shows_icon(#[trigger] r@[k], icons@[k], chosen@),
{
    let mut out: Vec<AppIconView> = Vec::new();
    let mut i: usize = 0;
    while i < icons.len()
        invariant
            i <= icons@.len(),
            out@.len() == i,
            forall|k: int| 0 <= k < i ==> shows_icon(#[trigger] out@[k], icons@[k], chosen@),
        decreases icons@.len() - i,
    {
        let icon = &icons[i];
        let preview = match &icon.preview {
            Some(p) => text::owned(p),
            None => String::new(),
        };
        out.push(
            AppIconView {
                id: text::owned(&icon.id),
                label: text::owned(&icon.label),
                preview,
                selected: text::same(&icon.id, chosen),
            },
        );
        i += 1;
    }
    out
}

/// What is said of an icon whose files were not built.
pub fn no_built_files(id: &str) -> (r: Failure)
    ensures
        r@ == seq![id@ + " has no built files — run scripts/build-appicons.sh"@],
{
    let mut s = text::owned(id);
    s.append(" has no built files — run scripts/build-appicons.sh");
    Failure::new(&s)
}

} // verus!
