//! Keeping EmulationStation out of the way while its files are rewritten.
//!
//! ES holds every gamelist and its collections in memory and writes them back
//! when it exits. A star written into `gamelist.xml` while ES runs is overwritten
//! by ES's own copy the next time it stops, and the sync that wrote it has already
//! recorded agreement. So a run stops ES first, does its work and starts ES again.
//! Never while a game is running: stopping ES under a game is not ours to do.

use vstd::prelude::*;
use crate::failure::Failure;
use crate::number;
use crate::procs;
use crate::text;

verus! {

/// What a run needs to know about, and do to, the frontend.
pub trait Frontend {
    fn es_running(&self) -> (r: bool)
    ;

    fn game_running(&self) -> (r: bool)
    ;

    /// Stops ES and waits until it has gone.
    fn stop(&self) -> (r: Result<(), Failure>)
    ;

    /// Whether ES may be started: nothing that it would write over is still to be
    /// written. For a front end to say; one that says nothing may always start it.
    open spec fn may_start(&self) -> bool {
        true
    }

    fn start(&self) -> (r: Result<(), Failure>)
        requires
            self.may_start(),
    ;
}

/// What is said to a run while a game is running.
pub open spec fn in_a_game() -> Seq<char> {
    "a game is running; close it first, then run this again"@
}

/// Refuses when a game is running.
pub fn refuse_in_a_game(running: bool) -> (r: Result<(), Failure>)
    ensures
        running ==> r is Err && r->Err_0@ == seq![in_a_game()],
        !running ==> r is Ok,
{
    if running {
        Err(Failure::new("a game is running; close it first, then run this again"))
    } else {
        Ok(())
    }
}

/// What the whole came to, given what the work came to and whether ES started
/// again.
pub open spec fn came_to<T>(out: Result<T, Failure>, started: Result<(), Failure>, r: Result<T, Failure>) -> bool {
    match (out, started) {
        (_, Ok(_)) => r == out,
        (Ok(_), Err(e)) => r is Err && r->Err_0@ == seq![
            "the work was done, but EmulationStation did not start again"@,
        ] + e@,
        (Err(w), Err(e)) => r is Err && r->Err_0@ == seq![
            "and EmulationStation did not start again: "@ + text::join(e@, ": "@),
        ] + w@,
    }
}

/// What the whole came to.
pub fn settle<T>(out: Result<T, Failure>, started: Result<(), Failure>) -> (r: Result<T, Failure>)
    ensures
        came_to(out, started, r),
{
    match started {
        Ok(_) => out,
        Err(e) => match out {
            Ok(_) => Err(e.context("the work was done, but EmulationStation did not start again")),
            Err(w) => {
                let mut why = text::owned("and EmulationStation did not start again: ");
                let all = e.full();
                why.append(&all);
                Err(w.context(&why))
            },
        },
    }
}

/// What the frontend said first: whether a game is running, and whether ES is.
pub open spec fn asked_first<F: Frontend>(fe: &F, game: bool, es: bool) -> bool {
    call_ensures(F::game_running, (fe,), game) && (!game ==> call_ensures(F::es_running, (fe,), es))
}

/// What running something with ES stopped comes to, where `game` says whether a
/// game is running and `es` whether ES is.
pub open spec fn went<T, F: Frontend, W: FnOnce() -> Result<T, Failure>>(
    game: bool,
    es: bool,
    fe: &F,
    work: W,
    r: Result<T, Failure>,
) -> bool {
    if game {
        r is Err && r->Err_0@ == seq![in_a_game()]
    } else if !es {
        work.ensures((), r)
    } else {
        // ES could not be stopped, or it was, and started again after the work
        ||| exists|e: Failure| #[trigger]
            call_ensures(F::stop, (fe,), Err::<(), Failure>(e)) && r == Err::<T, Failure>(e)
        ||| exists|stopped: Result<(), Failure>, out: Result<T, Failure>, started: Result<(), Failure>|
            #![trigger call_ensures(F::stop, (fe,), stopped), came_to(out, started, r)]
            call_ensures(F::stop, (fe,), stopped) && stopped is Ok && came_to(out, started, r) && work.ensures(
                (),
                out,
            ) && call_ensures(F::start, (fe,), started)
    }
}

/// What a run does next.
#[derive(Debug, Clone, Copy, PartialEq, Eq, Structural)]
pub enum Act {
    /// Ask whether a game is running.
    AskGame,
    /// Ask whether ES is.
    AskEs,
    Stop,
    /// Do the work, with ES to be started again after it or not.
    Work { again: bool },
    Start,
    End,
}

/// What came of what a run did.
#[derive(Debug, Clone, Copy, PartialEq, Eq, Structural)]
pub enum Said {
    Game(bool),
    Es(bool),
    /// Whether ES could be stopped.
    Stopped(bool),
    Worked,
    Started,
}

/// Whether something can come of an act.
pub open spec fn answers(at: Act, said: Said) -> bool {
    match at {
        Act::AskGame => said is Game,
        Act::AskEs => said is Es,
        Act::Stop => said is Stopped,
        Act::Work { .. } => said is Worked,
        Act::Start => said is Started,
        Act::End => false,
    }
}

/// What a run does after an act that something came of.
pub open spec fn next_of(at: Act, said: Said) -> Act {
    match said {
        Said::Game(running) => if running {
            Act::End
        } else {
            Act::AskEs
        },
        Said::Es(running) => if running {
            Act::Stop
        } else {
            Act::Work { again: false }
        },
        Said::Stopped(well) => if well {
            Act::Work { again: true }
        } else {
            Act::End
        },
        Said::Worked => if at == (Act::Work { again: true }) {
            Act::Start
        } else {
            Act::End
        },
        Said::Started => Act::End,
    }
}

/// What a run does next.
pub fn next(at: Act, said: Said) -> (r: Act)
    requires
        answers(at, said),
    ensures
        r == next_of(at, said),
{
    match said {
        Said::Game(true) => Act::End,
        Said::Game(false) => Act::AskEs,
        Said::Es(true) => Act::Stop,
        Said::Es(false) => Act::Work { again: false },
        Said::Stopped(true) => Act::Work { again: true },
        Said::Stopped(false) => Act::End,
        Said::Worked => match at {
            Act::Work { again: true } => Act::Start,
            _ => Act::End,
        },
        Said::Started => Act::End,
    }
}

/// Where an act comes in a run.
pub open spec fn place(a: Act) -> int {
    match a {
        Act::AskGame => 0,
        Act::AskEs => 1,
        Act::Stop => 2,
        Act::Work { .. } => 3,
        Act::Start => 4,
        Act::End => 5,
    }
}

/// Whether some acts are those of a run: it begins by asking whether a game is
/// running, and each act follows from the one before it and what came of that.
pub open spec fn is_run(acts: Seq<Act>, said: Seq<Said>) -> bool {
    &&& acts.len() == said.len() + 1
    &&& acts[0] == Act::AskGame
    &&& forall|i: int|
        0 <= i < said.len() ==> answers(acts[i], #[trigger] said[i]) && acts[i + 1] == next_of(
            acts[i],
            said[i],
        )
}

/// A run does nothing twice, and what it does comes in order: ES is stopped before
/// the work and started after it. It does nothing but ask where a game is running,
/// and the work is done only where ES was not running or could be stopped. ES is
/// started just where it was stopped and the work was done.
pub proof fn law_a_run_does_each_thing_once_and_in_order(acts: Seq<Act>, said: Seq<Said>, i: int, j: int)
    requires
        is_run(acts, said),
        0 <= i < j < acts.len(),
    ensures
        place(acts[i]) < place(acts[j]),
        said[0] == Said::Game(true) ==> acts.len() == 2,
        acts[j] == (Act::Work { again: false }) ==> said[j - 1] == Said::Es(false),
        acts[j] == (Act::Work { again: true }) ==> said[j - 1] == Said::Stopped(true),
        acts[j] == Act::Start <==> acts[j - 1] == (Act::Work { again: true }),
    decreases j - i,
{
    assert(answers(acts[j - 1], said[j - 1]) && acts[j] == next_of(acts[j - 1], said[j - 1]));
    assert(place(acts[j - 1]) < place(acts[j]));
    if i < j - 1 {
        law_a_run_does_each_thing_once_and_in_order(acts, said, i, j - 1);
    }
    assert(answers(acts[0], said[0]) && acts[1] == next_of(acts[0], said[0]));
    if said[0] == Said::Game(true) && acts.len() > 2 {
        assert(answers(acts[1], said[1]));
    }
}

/// What is said before ES is stopped.
pub const STOPPING: &'static str = "stopping EmulationStation, so it cannot write its own copy over this";

/// What is said before ES is started.
pub const STARTING: &'static str = "starting EmulationStation again";

/// Runs `work` with ES stopped, and starts it again afterwards if it was running
/// before, whether `work` succeeded or not.
///
/// Refuses when a game is running. What `work` needs is known only where no game
/// runs and ES is not running, or has just been stopped; that ES may be started is
/// known only once `work` is done. What is done when is [`next`]'s to say.
pub fn with_es_stopped<T, F: Frontend, S: Fn(&str), W: FnOnce() -> Result<T, Failure>>(
    fe: &F,
    say: S,
    work: W,
) -> (r: Result<T, Failure>)
    requires
        asked_first(fe, false, false) ==> work.requires(()),
        forall|stopped: Result<(), Failure>| #[trigger]
            call_ensures(F::stop, (fe,), stopped) && stopped is Ok && asked_first(fe, false, true)
                ==> work.requires(()),
        forall|out: Result<T, Failure>| #[trigger] work.ensures((), out) ==> fe.may_start(),
        say.requires((STOPPING,)),
        say.requires((STARTING,)),
    ensures
        exists|game: bool, es: bool|
            asked_first(fe, game, es) && #[trigger] went(game, es, fe, work, r),
{
    let ghost asked = work;
    let mut held = Some(work);
    let mut out: Option<Result<T, Failure>> = None;
    let mut at = Act::AskGame;
    let ghost mut halt: Result<(), Failure> = Ok(());
    let ghost mut game = false;
    let ghost mut es = false;
    while at != Act::End
        invariant
            asked == work,
            asked_first(fe, false, false) ==> asked.requires(()),
            forall|stopped: Result<(), Failure>| #[trigger]
                call_ensures(F::stop, (fe,), stopped) && stopped is Ok && asked_first(fe, false, true)
                    ==> asked.requires(()),
            forall|out: Result<T, Failure>| #[trigger] asked.ensures((), out) ==> fe.may_start(),
            say.requires((STOPPING,)),
            say.requires((STARTING,)),
            place(at) < 4 ==> held == Some(asked),
            place(at) >= 4 ==> out is Some,
            at != Act::AskGame ==> call_ensures(F::game_running, (fe,), game),
            0 < place(at) < 5 ==> !game,
            1 < place(at) < 5 ==> asked_first(fe, false, es),
            at == Act::Stop ==> es,
            at == (Act::Work { again: false }) ==> !es,
            at == (Act::Work { again: true }) || at == Act::Start ==> es && call_ensures(F::stop, (fe,), halt) && halt is Ok,
            at == Act::Start ==> asked.ensures((), out->0),
            at == Act::End ==> asked_first(fe, game, es) && went(game, es, fe, asked, out->0),
        decreases 5 - place(at),
    {
        match at {
            Act::AskGame => {
                let running = fe.game_running();
                proof {
                    game = running;
                }
                match refuse_in_a_game(running) {
                    Ok(_) => {},
                    Err(e) => {
                        out = Some(Err(e));
                    },
                }
                at = next(at, Said::Game(running));
            },
            Act::AskEs => {
                let running = fe.es_running();
                proof {
                    es = running;
                }
                at = next(at, Said::Es(running));
            },
            Act::Stop => {
                say(STOPPING);
                let stopped = fe.stop();
                proof {
                    halt = stopped;
                }
                let well = stopped.is_ok();
                match stopped {
                    Ok(_) => {},
                    Err(e) => {
                        out = Some(Err(e));
                    },
                }
                at = next(at, Said::Stopped(well));
            },
            Act::Work { .. } => {
                if let Some(w) = held.take() {
                    out = Some(w());
                }
                at = next(at, Said::Worked);
            },
            Act::Start => {
                say(STARTING);
                let started = fe.start();
                let ghost came = started;
                if let Some(done) = out {
                    let ghost was = done;
                    let r = settle(done, started);
                    assert(call_ensures(F::stop, (fe,), halt) && halt is Ok);
                    assert(came_to(was, came, r) && asked.ensures((), was) && call_ensures(F::start, (fe,), came));
                    out = Some(r);
                }
                at = next(at, Said::Started);
            },
            Act::End => {},
        }
    }
    out.unwrap()
}

/// The real device: processes read out of `/proc`.
#[derive(Debug)]
pub struct Knulli {
    pub proc: String,
}

impl Default for Knulli {
    fn default() -> (r: Knulli)
        ensures
            r.proc@ == "/proc"@,
    {
        Knulli { proc: text::owned("/proc") }
    }
}

/// A directory of /proc: its name and the command line read from it.
#[derive(Debug)]
pub struct ProcEntry {
    pub name: String,
    pub cmdline: Option<Vec<u8>>,
}

/// Whether a text is all digits.
pub open spec fn all_digits(t: Seq<char>) -> bool {
    forall|i: int| 0 <= i < t.len() ==> number::digit_value(#[trigger] t[i]) is Some
}

/// The arguments of the process that a directory stands for, where it has some.
pub open spec fn command_in(e: ProcEntry) -> Option<Seq<Seq<char>>> {
    match e.cmdline {
        Some(raw) => if all_digits(e.name@) && procs::args(raw@).len() > 0 {
            Some(procs::args(raw@))
        } else {
            None
        },
        None => None,
    }
}

/// Every process's arguments.
pub open spec fn commands_in(es: Seq<ProcEntry>) -> Seq<Seq<Seq<char>>>
    decreases es.len(),
{
    if es.len() == 0 {
        Seq::empty()
    } else {
        let before = commands_in(es.drop_last());
        match command_in(es.last()) {
            Some(args) => before.push(args),
            None => before,
        }
    }
}

/// The arguments, as values.
pub open spec fn lists(v: Seq<Vec<String>>) -> Seq<Seq<Seq<char>>> {
    v.map_values(|args: Vec<String>| text::texts(args@))
}

/// What a process was started from: its first argument, without the directory.
pub open spec fn program(args: Seq<Seq<char>>) -> Seq<char> {
    text::after_last(args[0], '/')
}

/// Whether a process is ES itself.
pub open spec fn is_es(args: Seq<Seq<char>>) -> bool {
    args.len() > 0 && program(args) == "emulationstation"@
}

/// Whether a process is a game.
pub open spec fn is_game(args: Seq<Seq<char>>) -> bool {
    args.len() > 0 && (program(args) == "retroarch"@ || procs::any_has(args, "emulatorlauncher"@))
}

/// Whether some process is ES itself.
pub open spec fn es_among(commands: Seq<Seq<Seq<char>>>) -> bool {
    exists|i: int| 0 <= i < commands.len() && is_es(#[trigger] commands[i])
}

/// Whether some process is a game.
pub open spec fn game_among(commands: Seq<Seq<Seq<char>>>) -> bool {
    exists|i: int| 0 <= i < commands.len() && is_game(#[trigger] commands[i])
}

fn are_digits(t: &str) -> (r: bool)
    ensures
        r == all_digits(t@),
{
    let cs = text::chars_of(t);
    let mut i: usize = 0;
    while i < cs.len()
        invariant
            cs@ == t@,
            i <= cs@.len(),
            forall|k: int| 0 <= k < i ==> number::digit_value(#[trigger] cs@[k]) is Some,
        decreases cs@.len() - i,
    {
        if !('0' <= cs[i] && cs[i] <= '9') {
            assert(number::digit_value(t@[i as int]) is None);
            return false;
        }
        i += 1;
    }
    true
}

/// How long ES is waited for when it is asked to stop: this many looks, half a
/// second apart.
pub const LOOKS: u32 = 40;

impl Knulli {
    /// Every process's arguments. None where there is no `/proc`, which is a
    /// desktop, where nothing here is running.
    pub fn commands(&self, entries: &Vec<ProcEntry>) -> (r: Vec<Vec<String>>)
        ensures
            lists(r@) == commands_in(entries@),
    {
        let mut out: Vec<Vec<String>> = Vec::new();
        let mut i: usize = 0;
        assert(lists(out@) =~= Seq::empty());
        while i < entries.len()
            invariant
                i <= entries@.len(),
                lists(out@) == commands_in(entries@.take(i as int)),
            decreases entries@.len() - i,
        {
            proof {
                assert(entries@.take(i + 1).drop_last() =~= entries@.take(i as int));
            }
            let ghost before = out@;
            let e = &entries[i];
            if are_digits(&e.name) {
                if let Some(raw) = &e.cmdline {
                    let args = procs::args_of(raw);
                    assert(args@.len() == procs::args(raw@).len());
                    if args.len() > 0 {
                        let ghost seen = text::texts(args@);
                        out.push(args);
                        assert(lists(out@) =~= lists(before).push(seen));
                    }
                }
            }
            i += 1;
        }
        assert(entries@.take(i as int) =~= entries@);
        out
    }

    /// The ES binary itself, not `emulationstation-standalone`, the shell loop
    /// that restarts it.
    pub fn es_running(&self, commands: &Vec<Vec<String>>) -> (r: bool)
        ensures
            r == es_among(lists(commands@)),
    {
        let mut i: usize = 0;
        while i < commands.len()
            invariant
                i <= commands@.len(),
                forall|k: int| 0 <= k < i ==> !is_es(#[trigger] lists(commands@)[k]),
            decreases commands@.len() - i,
        {
            let args = &commands[i];
            assert(lists(commands@)[i as int] == text::texts(args@));
            if args.len() > 0 {
                assert(text::texts(args@)[0] == args@[0]@);
                let p = text::part_after_last(&args[0], '/');
                if text::same(&p, "emulationstation") {
                    return true;
                }
            }
            i += 1;
        }
        false
    }

    /// RetroArch, or anything `emulatorlauncher` started: the standalone
    /// emulators all go through it.
    pub fn game_running(&self, commands: &Vec<Vec<String>>) -> (r: bool)
        ensures
            r == game_among(lists(commands@)),
    {
        let mut i: usize = 0;
        while i < commands.len()
            invariant
                i <= commands@.len(),
                forall|k: int| 0 <= k < i ==> !is_game(#[trigger] lists(commands@)[k]),
            decreases commands@.len() - i,
        {
            let args = &commands[i];
            assert(lists(commands@)[i as int] == text::texts(args@));
            if args.len() > 0 {
                assert(text::texts(args@)[0] == args@[0]@);
                let p = text::part_after_last(&args[0], '/');
                if text::same(&p, "retroarch") || procs::any_contains(args, "emulatorlauncher") {
                    return true;
                }
            }
            i += 1;
        }
        false
    }

    /// What stopping ES came to, after so many looks: nothing yet, or done, or
    /// given up.
    pub fn stopped(&self, looks: u32, running: bool) -> (r: Option<Result<(), Failure>>)
        ensures
            !running && looks < LOOKS ==> r == Some(Ok::<(), Failure>(())),
            running && looks < LOOKS ==> r is None,
            looks >= LOOKS ==> (r matches Some(Err(e)) && e@ == seq![
                "EmulationStation was still running 20 s after being asked to stop; nothing was written"@,
            ]),
    {
        if looks >= LOOKS {
            return Some(
                Err(
                    Failure::new(
                        "EmulationStation was still running 20 s after being asked to stop; nothing was written",
                    ),
                ),
            );
        }
        if running {
            None
        } else {
            Some(Ok(()))
        }
    }

    /// What the shell is given to start ES in a session of its own, with what its
    /// profile sets. Nothing where ES is running: never a second one, as two fight
    /// over the display and neither survives.
    pub fn start_script(&self, running: bool) -> (r: Option<String>)
        ensures
            text::opt(r) == (if running {
                None
            } else {
                Some(
                    ". /etc/profile.d/xdg.sh 2>/dev/null; . /etc/profile.d/dbus.sh 2>/dev/null; setsid /usr/bin/emulationstation-standalone </dev/null >/dev/null 2>&1 &"@,
                )
            }),
    {
        if running {
            None
        } else {
            Some(
                text::owned(
                    ". /etc/profile.d/xdg.sh 2>/dev/null; . /etc/profile.d/dbus.sh 2>/dev/null; setsid /usr/bin/emulationstation-standalone </dev/null >/dev/null 2>&1 &",
                ),
            )
        }
    }

    /// What is said when the shell did not start ES.
    pub fn did_not_start(&self, status: &str) -> (r: Failure)
        ensures
            r@ == seq!["starting EmulationStation exited "@ + status@],
    {
        let mut s = text::owned("starting EmulationStation exited ");
        s.append(status);
        Failure::new(&s)
    }

    /// What is said when the init script could not be run.
    pub fn could_not_stop(&self, why: &str) -> (r: Failure)
        ensures
            r@ == seq!["could not run /etc/init.d/S31emulationstation stop: "@ + why@],
    {
        let mut s = text::owned("could not run /etc/init.d/S31emulationstation stop: ");
        s.append(why);
        Failure::new(&s)
    }
}

} // verus!
