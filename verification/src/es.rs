//! EmulationStation, as far as a change made over ssh has to care.
//!
//! ES reads knulli.conf once, keeps it in memory, and writes the whole file back
//! when its settings change. A patch written under a running ES lasts until ES
//! next saves, and then it is whatever ES remembered. So a change stops ES first
//! and starts it again when it is done.
//!
//! A game is the other case, and there the answer is no. Stopping ES under a
//! running emulator would end the game.

use vstd::prelude::*;
use crate::failure::Failure;
use crate::number;
use crate::paths;
use crate::procs;
use crate::text;

verus! {

/// One process, as /proc describes it.
#[derive(Debug)]
pub struct Process {
    pub pid: u32,
    /// The name the kernel keeps, cut short.
    pub name: String,
    pub args: Vec<String>,
}

/// What a process says of itself, as values: its number, name and arguments.
pub open spec fn process_view(p: Process) -> (u32, Seq<char>, Seq<Seq<char>>) {
    (p.pid, p.name@, text::texts(p.args@))
}

/// Whether a process is EmulationStation itself.
pub open spec fn is_es(args: Seq<Seq<char>>) -> bool {
    args.len() > 0 && paths::name(args[0]) == Some("emulationstation"@)
}

/// Whether a process is a game.
pub open spec fn is_game(name: Seq<char>, args: Seq<Seq<char>>) -> bool {
    name == "retroarch"@ || procs::any_has(args, "emulatorlauncher"@)
}

impl Process {
    /// EmulationStation itself. Not `emulationstation-standalone`, the shell
    /// script that restarts it.
    pub fn is_es(&self) -> (r: bool)
        ensures
            r == is_es(text::texts(self.args@)),
    {
        if self.args.len() == 0 {
            return false;
        }
        assert(text::texts(self.args@)[0] == self.args@[0]@);
        match paths::file_name(&self.args[0]) {
            Some(name) => text::same(&name, "emulationstation"),
            None => false,
        }
    }

    /// A game: RetroArch, or anything started through `emulatorlauncher`, which
    /// is how ES starts every emulator.
    pub fn is_game(&self) -> (r: bool)
        ensures
            r == is_game(self.name@, text::texts(self.args@)),
    {
        text::same(&self.name, "retroarch") || procs::any_contains(&self.args, "emulatorlauncher")
    }
}

/// A directory of /proc: its name, and the two files in it that were read.
#[derive(Debug)]
pub struct ProcEntry {
    pub name: String,
    pub comm: Option<String>,
    pub cmdline: Option<Vec<u8>>,
}

/// What a process was started with, where that could be read.
pub open spec fn entry_args(cmdline: Option<Vec<u8>>) -> Seq<Seq<char>> {
    match cmdline {
        Some(raw) => procs::args(raw@),
        None => Seq::empty(),
    }
}

/// The process that a directory stands for. One whose name is no number, or whose
/// process went while it was read, stands for none; nor does this one.
pub open spec fn process_in(e: ProcEntry, me: u32) -> Option<(u32, Seq<char>, Seq<Seq<char>>)> {
    match number::unsigned(e.name@) {
        Some(pid) => if pid <= u32::MAX && pid != me && e.comm is Some {
            Some((pid as u32, text::trim_end(e.comm->0@), entry_args(e.cmdline)))
        } else {
            None
        },
        None => None,
    }
}

/// Every process among some directories.
pub open spec fn processes_in(es: Seq<ProcEntry>, me: u32) -> Seq<(u32, Seq<char>, Seq<Seq<char>>)>
    decreases es.len(),
{
    if es.len() == 0 {
        Seq::empty()
    } else {
        let before = processes_in(es.drop_last(), me);
        match process_in(es.last(), me) {
            Some(p) => before.push(p),
            None => before,
        }
    }
}

/// The processes, as values.
pub open spec fn views(ps: Seq<Process>) -> Seq<(u32, Seq<char>, Seq<Seq<char>>)> {
    ps.map_values(|p: Process| process_view(p))
}

/// Every process among the directories of /proc, except this one.
pub fn processes(entries: &Vec<ProcEntry>, me: u32) -> (r: Vec<Process>)
    ensures
        views(r@) == processes_in(entries@, me),
{
    let mut out: Vec<Process> = Vec::new();
    let mut i: usize = 0;
    assert(views(out@) =~= Seq::empty());
    while i < entries.len()
        invariant
            i <= entries@.len(),
            views(out@) == processes_in(entries@.take(i as int), me),
        decreases entries@.len() - i,
    {
        proof {
            assert(entries@.take(i + 1).drop_last() =~= entries@.take(i as int));
        }
        let e = &entries[i];
        let ghost before = out@;
        if let Some(pid) = number::parse_unsigned(&e.name, u32::MAX as u128) {
            if pid as u32 != me {
                if let Some(comm) = &e.comm {
                    let args: Vec<String> = match &e.cmdline {
                        Some(raw) => procs::args_of(raw),
                        None => Vec::new(),
                    };
                    assert(text::texts(args@) =~= entry_args(e.cmdline));
                    let p = Process { pid: pid as u32, name: text::without_trailing(comm), args };
                    let ghost seen = process_view(p);
                    out.push(p);
                    assert(views(out@) =~= views(before).push(seen));
                }
            }
        }
        i += 1;
    }
    assert(entries@.take(i as int) =~= entries@);
    out
}

/// What a change over ssh needs from the front end.
pub trait Frontend {
    /// A game that is running, described for a person, if there is one.
    fn game(&self) -> (r: Option<String>)
    ;

    fn es_running(&self) -> (r: bool)
    ;

    fn stop_es(&mut self) -> (r: Result<(), Failure>)
    ;

    /// Whether ES may be started: nothing that it would write over is still to be
    /// written. For a front end to say; one that says nothing may always start it.
    open spec fn may_start(&self) -> bool {
        true
    }

    fn start_es(&mut self) -> (r: Result<(), Failure>)
        requires
            old(self).may_start(),
    ;
}

/// What is said to a change while a game is running.
pub open spec fn in_a_game(game: Seq<char>) -> Seq<char> {
    "a game is running ("@ + game
        + "). Stopping EmulationStation would end it; quit the game first. Nothing was written"@
}

/// Refuses while a game is running, before anything is written.
pub fn refuse_in_a_game(game: &Option<String>) -> (r: Result<(), Failure>)
    ensures
        match *game {
            Some(g) => r is Err && r->Err_0@ == seq![in_a_game(g@)],
            None => r is Ok,
        },
{
    match game {
        Some(g) => {
            let mut why = text::owned("a game is running (");
            why.append(g);
            why.append("). Stopping EmulationStation would end it; quit the game first. Nothing was written");
            Err(Failure::new(&why))
        },
        None => Ok(()),
    }
}

/// What the whole came to, given what the work came to and whether ES came back:
/// ES not coming back is an error too, after the change has been made.
pub open spec fn came_to<T>(done: Result<T, Failure>, started: Result<(), Failure>, r: Result<T, Failure>) -> bool {
    match (done, started) {
        (Ok(value), Ok(_)) => r == Ok::<T, Failure>(value),
        (Ok(_), Err(e)) => r is Err && r->Err_0@ == seq!["the change was made, but"@] + e@,
        (Err(e), Ok(_)) => r is Err && r->Err_0@ == e@,
        (Err(e), Err(start)) => r is Err && r->Err_0@ == seq![
            "and EmulationStation did not come back: "@ + text::join(start@, ": "@),
        ] + e@,
    }
}

/// What the whole came to.
pub fn settle<T>(done: Result<T, Failure>, started: Result<(), Failure>) -> (r: Result<T, Failure>)
    ensures
        came_to(done, started, r),
{
    match (done, started) {
        (Ok(value), Ok(_)) => Ok(value),
        (Ok(_), Err(e)) => Err(e.context("the change was made, but")),
        (Err(e), Ok(_)) => Err(e),
        (Err(e), Err(start)) => {
            let mut why = text::owned("and EmulationStation did not come back: ");
            let all = start.full();
            why.append(&all);
            Err(e.context(&why))
        },
    }
}

/// What the front end said first: which game is running, and without one, whether
/// ES is.
pub open spec fn asked_first<F: Frontend>(es: F, game: Option<String>, running: bool) -> bool {
    call_ensures(F::game, (&es,), game) && (game is None ==> call_ensures(F::es_running, (&es,), running))
}

/// Runs `work` with EmulationStation out of the way.
///
/// Refuses while a game is running, before anything is asked of ES. Stops ES if
/// it is running, and starts it again afterwards whether `work` worked or not.
/// What `work` needs is known only where no game runs and ES is not running, or has
/// just been stopped; that ES may be started is known only once `work` is done.
pub fn with_es_stopped<T, F: Frontend, W: FnOnce() -> Result<T, Failure>>(es: &mut F, work: W) -> (r: Result<
    T,
    Failure,
>)
    requires
        asked_first(*old(es), None::<String>, false) ==> work.requires(()),
        forall|m: &mut F, stopped: Result<(), Failure>| #[trigger]
            call_ensures(F::stop_es, (m,), stopped) && *m == *old(es) && stopped is Ok && asked_first(
                *old(es),
                None::<String>,
                true,
            ) ==> work.requires(()),
        forall|done: Result<T, Failure>, f: F| #[trigger]
            work.ensures((), done) ==> #[trigger] f.may_start(),
    ensures
        exists|game: Option<String>, running: bool| #[trigger]
            asked_first(*old(es), game, running) && match game {
                // nothing happens at all
                Some(g) => *final(es) == *old(es) && r is Err && r->Err_0@ == seq![in_a_game(g@)],
                None => if !running {
                    // ES is left alone
                    *final(es) == *old(es) && work.ensures((), r)
                } else {
                    // ES did not stop, or was stopped for the work and started after it
                    ||| exists|m: &mut F, stopped: Result<(), Failure>| #[trigger]
                        call_ensures(F::stop_es, (m,), stopped) && *m == *old(es) && *final(m) == *final(es)
                            && stopped is Err && r is Err && r->Err_0 == stopped->Err_0
                    ||| exists|
                        m: &mut F,
                        n: &mut F,
                        stopped: Result<(), Failure>,
                        started: Result<(), Failure>,
                        done: Result<T, Failure>,
                    |
                        #![trigger call_ensures(F::stop_es, (m,), stopped), call_ensures(F::start_es, (n,), started), came_to(done, started, r)]
                        call_ensures(F::stop_es, (m,), stopped) && *m == *old(es) && stopped is Ok && *n == *final(m)
                            && call_ensures(F::start_es, (n,), started) && *final(n) == *final(es) && work.ensures(
                            (),
                            done,
                        ) && came_to(done, started, r)
                },
            },
{
    let ghost asked = work;
    let game = es.game();
    match refuse_in_a_game(&game) {
        Ok(_) => {},
        Err(e) => {
            assert(asked_first(*old(es), game, false));
            return Err(e);
        },
    }
    let running = es.es_running();
    assert(asked_first(*old(es), game, running));
    if !running {
        return work();
    }
    let stopped = es.stop_es();
    let ghost halt = stopped;
    match stopped {
        Ok(_) => {},
        Err(e) => {
            return Err(e);
        },
    }
    let done = work();
    let ghost was = done;
    let started = es.start_es();
    let ghost came = started;
    let r = settle(done, started);
    assert(came_to(was, came, r) && asked.ensures((), was) && halt is Ok);
    r
}

/// The handheld's own EmulationStation.
#[derive(Debug)]
pub struct Device {
    pub proc_root: String,
    pub init: String,
    /// How many seconds ES gets to stop, or to come back.
    pub wait: u64,
}

impl Default for Device {
    fn default() -> (r: Device)
        ensures
            r.proc_root@ == "/proc"@,
            r.init@ == "/etc/init.d/S31emulationstation"@,
            r.wait == 20,
    {
        Device {
            proc_root: text::owned("/proc"),
            init: text::owned("/etc/init.d/S31emulationstation"),
            wait: 20,
        }
    }
}

/// The first game among some processes, described for a person.
pub open spec fn first_game(ps: Seq<(u32, Seq<char>, Seq<Seq<char>>)>) -> Option<Seq<char>>
    decreases ps.len(),
{
    if ps.len() == 0 {
        None
    } else if is_game(ps[0].1, ps[0].2) {
        Some(ps[0].1 + " (pid "@ + number::decimal(ps[0].0 as nat) + ")"@)
    } else {
        first_game(ps.skip(1))
    }
}

/// Whether ES is among some processes.
pub open spec fn es_among(ps: Seq<(u32, Seq<char>, Seq<Seq<char>>)>) -> bool {
    exists|i: int| 0 <= i < ps.len() && is_es((#[trigger] ps[i]).2)
}

/// What to do while ES is waited for.
#[derive(Debug, Clone, Copy, PartialEq, Eq, Structural)]
pub enum Wait {
    /// It is where it was to be.
    Done,
    /// It has had its time.
    GiveUp,
    /// Look again.
    Again,
}

impl Device {
    /// A game that is running, described for a person, if there is one.
    pub fn game(&self, all: &Vec<Process>) -> (r: Option<String>)
        ensures
            text::opt(r) == first_game(views(all@)),
    {
        let ghost vs = views(all@);
        let mut i: usize = 0;
        assert(vs.skip(0) =~= vs);
        while i < all.len()
            invariant
                vs == views(all@),
                i <= all@.len(),
                first_game(vs) == first_game(vs.skip(i as int)),
            decreases all@.len() - i,
        {
            let p = &all[i];
            proof {
                assert(vs.skip(i as int)[0] == process_view(*p));
                assert(vs.skip(i as int).skip(1) =~= vs.skip(i + 1));
            }
            if p.is_game() {
                let mut said = text::owned(&p.name);
                said.append(" (pid ");
                let n = number::decimal_of(p.pid as u128);
                said.append(&n);
                said.append(")");
                return Some(said);
            }
            i += 1;
        }
        None
    }

    /// Whether ES is running.
    pub fn es_running(&self, all: &Vec<Process>) -> (r: bool)
        ensures
            r == es_among(views(all@)),
    {
        let mut i: usize = 0;
        while i < all.len()
            invariant
                i <= all@.len(),
                forall|k: int| 0 <= k < i ==> !is_es((#[trigger] views(all@)[k]).2),
            decreases all@.len() - i,
        {
            assert(views(all@)[i as int] == process_view(all@[i as int]));
            if all[i].is_es() {
                return true;
            }
            i += 1;
        }
        false
    }

    /// What to do while ES is waited for: to be up, or to be gone.
    pub fn waited(&self, up: bool, running: bool, past: bool) -> (r: Wait)
        ensures
            r == (if running == up {
                Wait::Done
            } else if past {
                Wait::GiveUp
            } else {
                Wait::Again
            }),
    {
        if running == up {
            Wait::Done
        } else if past {
            Wait::GiveUp
        } else {
            Wait::Again
        }
    }

    /// What is said when ES does not stop.
    pub fn did_not_stop(&self) -> (r: Failure)
        ensures
            r@ == seq![
                "EmulationStation did not stop within "@ + number::decimal(self.wait as nat)
                    + " s, so nothing was written"@,
            ],
    {
        let mut why = text::owned("EmulationStation did not stop within ");
        let n = number::decimal_of(self.wait as u128);
        why.append(&n);
        why.append(" s, so nothing was written");
        Failure::new(&why)
    }

    /// What is said when ES does not come back.
    pub fn did_not_come_back(&self) -> (r: Failure)
        ensures
            r@ == seq![
                "EmulationStation did not come back within "@ + number::decimal(self.wait as nat)
                    + " s; start it with `"@ + self.init@ + " start`"@,
            ],
    {
        let mut why = text::owned("EmulationStation did not come back within ");
        let n = number::decimal_of(self.wait as u128);
        why.append(&n);
        why.append(" s; start it with `");
        why.append(&self.init);
        why.append(" start`");
        Failure::new(&why)
    }

    /// What brings ES up: through the init script, after the profile scripts, or
    /// it comes up with no XDG_RUNTIME_DIR and no sound.
    pub fn start_script(&self) -> (r: String)
        ensures
            r@ == ". /etc/profile.d/xdg.sh 2>/dev/null; . /etc/profile.d/dbus.sh 2>/dev/null; exec "@ + self.init@
                + " start"@,
    {
        let mut s = text::owned(
            ". /etc/profile.d/xdg.sh 2>/dev/null; . /etc/profile.d/dbus.sh 2>/dev/null; exec ",
        );
        s.append(&self.init);
        s.append(" start");
        s
    }
}

} // verus!
