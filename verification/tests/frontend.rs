use std::cell::RefCell;

use moose_rack_core::disk::{Disk, Found};
use moose_rack_core::es;
use moose_rack_core::esctl::{self, Act, Said};
use moose_rack_core::failure::Failure;
use moose_rack_core::knulli::{self, Verdict, BUILT_FOR};
use moose_rack_core::patch::Paths;

// ---------------------------------------------------------------------------
// /proc, as the tool over ssh reads it
// ---------------------------------------------------------------------------

fn command_line(args: &[&str]) -> Vec<u8> {
    let mut raw = args.join("\0").into_bytes();
    raw.push(0);
    raw
}

fn fake_proc(processes: &[(u32, &str, &[&str])]) -> Vec<es::Process> {
    let mut entries: Vec<es::ProcEntry> = processes
        .iter()
        .map(|(pid, comm, args)| es::ProcEntry {
            name: pid.to_string(),
            comm: Some(format!("{comm}\n")),
            cmdline: Some(command_line(args)),
        })
        .collect();
    // Not a process.
    entries.push(es::ProcEntry { name: "self".to_string(), comm: None, cmdline: None });
    es::processes(&entries, 1)
}

#[test]
fn es_and_games_are_told_apart_from_proc() {
    let device = es::Device::default();
    let idle = fake_proc(&[
        (412, "emulationstatio", &["emulationstation", "--no-splash"]),
        (398, "emulationstatio", &["/bin/bash", "/usr/bin/emulationstation-standalone"]),
    ]);
    assert!(device.es_running(&idle));
    assert_eq!(device.game(&idle), None, "ES on its own is not a game");

    let retroarch =
        fake_proc(&[(900, "retroarch", &["/usr/bin/retroarch", "-L", "mgba_libretro.so"])]);
    assert!(device.game(&retroarch).is_some_and(|g| g.contains("retroarch")));
    assert!(!device.es_running(&retroarch));

    let standalone =
        fake_proc(&[(901, "python3", &["python3", "/usr/bin/emulatorlauncher", "-system", "psp"])]);
    assert!(device.game(&standalone).is_some());
}

#[test]
fn a_game_is_described_by_its_name_and_number() {
    let device = es::Device::default();
    let all = fake_proc(&[(900, "retroarch", &["/usr/bin/retroarch"])]);
    assert_eq!(device.game(&all).as_deref(), Some("retroarch (pid 900)"));
}

#[test]
fn a_process_does_not_see_itself_and_a_directory_that_is_no_number_is_none() {
    let entry = |name: &str| es::ProcEntry {
        name: name.to_string(),
        comm: Some("retroarch\n".to_string()),
        cmdline: Some(command_line(&["/usr/bin/retroarch"])),
    };
    let all = es::processes(&vec![entry("77"), entry("self"), entry("78")], 77);
    assert_eq!(all.len(), 1);
    assert_eq!(all[0].pid, 78);
    assert_eq!(all[0].name, "retroarch");
}

#[test]
fn a_command_line_that_is_not_utf8_is_still_read() {
    let entries = vec![es::ProcEntry {
        name: "5".to_string(),
        comm: Some("x\n".to_string()),
        cmdline: Some(b"a\xffb\0emulatorlauncher\0".to_vec()),
    }];
    let all = es::processes(&entries, 1);
    assert_eq!(all[0].args[0], "a\u{fffd}b");
    assert!(all[0].is_game());
}

/// Stands in for ES and writes down what was done to it.
struct Fake<'a> {
    running: bool,
    game: Option<&'static str>,
    log: &'a RefCell<Vec<&'static str>>,
    comes_back: bool,
}

impl es::Frontend for Fake<'_> {
    fn game(&self) -> Option<String> {
        self.game.map(str::to_string)
    }
    fn es_running(&self) -> bool {
        self.running
    }
    fn stop_es(&mut self) -> Result<(), Failure> {
        self.log.borrow_mut().push("stop");
        self.running = false;
        Ok(())
    }
    fn start_es(&mut self) -> Result<(), Failure> {
        self.log.borrow_mut().push("start");
        if !self.comes_back {
            return Err(Failure::new("it did not come back"));
        }
        self.running = true;
        Ok(())
    }
}

#[test]
fn es_is_stopped_around_the_work_and_started_even_when_it_fails() {
    let log = RefCell::new(Vec::new());
    let mut es = Fake { running: true, game: None, log: &log, comes_back: true };
    let result: Result<(), Failure> = es::with_es_stopped(&mut es, || {
        log.borrow_mut().push("write");
        Err(Failure::new("the write failed"))
    });
    assert!(result.is_err());
    assert_eq!(*log.borrow(), ["stop", "write", "start"]);
    assert!(es.running);
}

#[test]
fn es_that_does_not_come_back_is_an_error_after_the_change() {
    let log = RefCell::new(Vec::new());
    let mut es = Fake { running: true, game: None, log: &log, comes_back: false };
    let err = es::with_es_stopped(&mut es, || Ok(())).unwrap_err();
    assert!(err.full().contains("the change was made"), "{}", err.full());
    assert_eq!(err.full(), "the change was made, but: it did not come back");
}

#[test]
fn work_that_failed_and_es_that_did_not_come_back_are_both_told() {
    let log = RefCell::new(Vec::new());
    let mut es = Fake { running: true, game: None, log: &log, comes_back: false };
    let result: Result<(), Failure> =
        es::with_es_stopped(&mut es, || Err(Failure::new("the write failed")));
    assert_eq!(
        result.unwrap_err().full(),
        "and EmulationStation did not come back: it did not come back: the write failed"
    );
}

#[test]
fn a_running_game_stops_everything_before_it_starts() {
    let log = RefCell::new(Vec::new());
    let mut es = Fake { running: true, game: Some("retroarch"), log: &log, comes_back: true };
    let result = es::with_es_stopped(&mut es, || {
        log.borrow_mut().push("write");
        Ok(())
    });
    assert!(result.is_err());
    assert!(log.borrow().is_empty(), "{:?}", log.borrow());
}

#[test]
fn es_that_is_not_running_is_left_alone() {
    let log = RefCell::new(Vec::new());
    let mut es = Fake { running: false, game: None, log: &log, comes_back: true };
    es::with_es_stopped(&mut es, || {
        log.borrow_mut().push("write");
        Ok(())
    })
    .unwrap();
    assert_eq!(*log.borrow(), ["write"]);
}

// ---------------------------------------------------------------------------
// ES, as the tool on the handheld stops it
// ---------------------------------------------------------------------------

#[derive(Default)]
struct FakeEs {
    es: bool,
    game: bool,
    start_fails: bool,
    log: RefCell<Vec<&'static str>>,
}

impl esctl::Frontend for FakeEs {
    fn es_running(&self) -> bool {
        self.es
    }
    fn game_running(&self) -> bool {
        self.game
    }
    fn stop(&self) -> Result<(), Failure> {
        self.log.borrow_mut().push("stop");
        Ok(())
    }
    fn start(&self) -> Result<(), Failure> {
        self.log.borrow_mut().push("start");
        if self.start_fails {
            Err(Failure::new("no display"))
        } else {
            Ok(())
        }
    }
}

fn run(fe: &FakeEs, ok: bool) -> Result<(), Failure> {
    esctl::with_es_stopped(fe, |_: &str| {}, || {
        fe.log.borrow_mut().push("work");
        if ok {
            Ok(())
        } else {
            Err(Failure::new("server said no"))
        }
    })
}

#[test]
fn es_is_stopped_for_the_work_and_started_after() {
    let fe = FakeEs { es: true, ..Default::default() };
    run(&fe, true).unwrap();
    assert_eq!(*fe.log.borrow(), ["stop", "work", "start"]);
}

#[test]
fn es_comes_back_after_a_failure_too() {
    let fe = FakeEs { es: true, ..Default::default() };
    assert!(run(&fe, false).is_err());
    assert_eq!(*fe.log.borrow(), ["stop", "work", "start"]);
}

#[test]
fn es_that_was_not_running_is_not_started() {
    let fe = FakeEs::default();
    run(&fe, true).unwrap();
    assert_eq!(*fe.log.borrow(), ["work"]);
}

#[test]
fn nothing_happens_while_a_game_is_running() {
    let fe = FakeEs { es: true, game: true, ..Default::default() };
    let e = run(&fe, true).unwrap_err().message();
    assert!(e.contains("game is running"), "{e}");
    assert!(fe.log.borrow().is_empty(), "{:?}", fe.log.borrow());
}

#[test]
fn es_failing_to_start_is_reported_even_when_the_work_went_well() {
    let fe = FakeEs { es: true, start_fails: true, ..Default::default() };
    let e = run(&fe, true).unwrap_err().full();
    assert!(e.contains("did not start again"), "{e}");
    assert_eq!(*fe.log.borrow(), ["stop", "work", "start"]);
}

#[test]
fn both_failures_are_told_when_es_does_not_start_after_failed_work() {
    let fe = FakeEs { es: true, start_fails: true, ..Default::default() };
    assert_eq!(
        run(&fe, false).unwrap_err().full(),
        "and EmulationStation did not start again: no display: server said no"
    );
}

fn commands(procs: &[&[&str]]) -> Vec<Vec<String>> {
    let mut entries: Vec<esctl::ProcEntry> = procs
        .iter()
        .enumerate()
        .map(|(i, args)| esctl::ProcEntry {
            name: (100 + i).to_string(),
            cmdline: Some(command_line(args)),
        })
        .collect();
    entries.push(esctl::ProcEntry { name: "self".to_string(), cmdline: None });
    esctl::Knulli::default().commands(&entries)
}

#[test]
fn es_is_the_binary_and_not_its_restart_loop() {
    let knulli = esctl::Knulli::default();
    let only_the_loop = commands(&[&["/bin/bash", "/usr/bin/emulationstation-standalone"]]);
    assert!(!knulli.es_running(&only_the_loop));
    let running = commands(&[
        &["/bin/bash", "/usr/bin/emulationstation-standalone"],
        &["emulationstation", "--no-splash"],
    ]);
    assert!(knulli.es_running(&running));
    assert!(!knulli.game_running(&running));
}

#[test]
fn a_game_is_retroarch_or_anything_the_launcher_started() {
    let knulli = esctl::Knulli::default();
    assert!(knulli.game_running(&commands(&[&["/usr/bin/retroarch", "-L", "core.so"]])));
    assert!(knulli.game_running(&commands(&[&[
        "python",
        "/usr/bin/emulatorlauncher",
        "-system",
        "psp"
    ]])));
    assert!(!knulli.game_running(&commands(&[&["/sbin/init"], &["sshd"]])));
    // No /proc at all is a desktop, where none of this runs.
    let none = knulli.commands(&Vec::new());
    assert!(!knulli.es_running(&none) && !knulli.game_running(&none));
}

#[test]
fn es_gets_so_many_looks_to_stop() {
    let knulli = esctl::Knulli::default();
    assert!(matches!(knulli.stopped(0, false), Some(Ok(()))));
    assert!(knulli.stopped(esctl::LOOKS - 1, true).is_none());
    assert!(matches!(knulli.stopped(esctl::LOOKS, true), Some(Err(_))));
}

// ---------------------------------------------------------------------------
// Which KNULLI
// ---------------------------------------------------------------------------

fn card(text: Option<&str>) -> (Disk, Paths) {
    let paths = Paths::new("/card");
    let files = match text {
        Some(t) => vec![(paths.knulli_version(), Found::Bytes(t.as_bytes().to_vec()))],
        None => Vec::new(),
    };
    (Disk { files }, paths)
}

#[test]
fn the_version_we_were_built_for_is_the_same_one() {
    let (disk, paths) = card(Some(&format!("{BUILT_FOR}\n")));
    assert_eq!(knulli::check(&disk, &paths), Verdict::Same);
    assert!(knulli::check(&disk, &paths).safe_to_apply());
}

#[test]
fn an_updated_knulli_stops_an_apply() {
    let (disk, paths) = card(Some("scarab 2026/11/01 09:00\n"));
    assert_eq!(
        knulli::check(&disk, &paths),
        Verdict::Moved("scarab 2026/11/01 09:00".into())
    );
    assert!(!knulli::check(&disk, &paths).safe_to_apply());
    assert!(knulli::check(&disk, &paths).refusal().contains("2026/11/01"));
    assert!(knulli::check(&disk, &paths).refusal().contains(BUILT_FOR), "say what it wanted");
}

#[test]
fn no_version_file_is_not_a_refusal() {
    let (disk, paths) = card(None);
    assert_eq!(knulli::check(&disk, &paths), Verdict::Unknown);
    assert!(knulli::check(&disk, &paths).safe_to_apply());
}

#[test]
fn the_flags_knulli_version_prints_are_not_part_of_it() {
    let (disk, paths) = card(Some(&format!("{BUILT_FOR}\n")));
    assert_eq!(knulli::installed(&disk, &paths).as_deref(), Some(BUILT_FOR));
}

#[test]
fn a_version_file_that_is_no_text_names_no_version() {
    let paths = Paths::new("/card");
    let disk = Disk { files: vec![(paths.knulli_version(), Found::Bytes(vec![0xff, 0xfe]))] };
    assert_eq!(knulli::check(&disk, &paths), Verdict::Unknown);
}

#[test]
fn the_screen_never_offers_to_insist() {
    for v in [Verdict::Moved("scarab 2027/01/01 -".to_string()), Verdict::Unknown, Verdict::Same] {
        assert!(!v.refusal_on_screen().contains("--anyway"), "{}", v.refusal_on_screen());
        assert!(v.refusal().contains("--anyway"));
    }
    assert_eq!(
        Verdict::Moved("x".to_string()).refusal_on_screen(),
        format!(
            "This KNULLI is x. moose-patch was checked against {BUILT_FOR}, and a patch written for \
             another image can set a key nothing reads. Update moose-patch first. Nothing was written."
        )
    );
}

#[test]
fn a_run_asks_stops_works_and_starts_in_that_order() {
    let mut at = Act::AskGame;
    let mut acts = vec![at];
    for said in
        [Said::Game(false), Said::Es(true), Said::Stopped(true), Said::Worked, Said::Started]
    {
        at = esctl::next(at, said);
        acts.push(at);
    }
    assert_eq!(
        acts,
        [Act::AskGame, Act::AskEs, Act::Stop, Act::Work { again: true }, Act::Start, Act::End]
    );
    assert_eq!(esctl::next(Act::AskGame, Said::Game(true)), Act::End);
    assert_eq!(esctl::next(Act::AskEs, Said::Es(false)), Act::Work { again: false });
    assert_eq!(esctl::next(Act::Work { again: false }, Said::Worked), Act::End);
    assert_eq!(esctl::next(Act::Stop, Said::Stopped(false)), Act::End);
}

#[test]
fn what_is_said_around_the_work_is_said_once_each() {
    let fe = FakeEs { es: true, ..Default::default() };
    let said = RefCell::new(Vec::new());
    esctl::with_es_stopped(&fe, |l: &str| said.borrow_mut().push(l.to_string()), || Ok(())).unwrap();
    assert_eq!(*said.borrow(), [esctl::STOPPING, esctl::STARTING]);
}

#[test]
fn no_second_es_is_started() {
    let knulli = esctl::Knulli::default();
    assert_eq!(knulli.start_script(true), None);
    assert!(knulli.start_script(false).unwrap().contains("setsid /usr/bin/emulationstation-standalone"));
    assert_eq!(
        knulli.did_not_start("exit status: 1").message(),
        "starting EmulationStation exited exit status: 1"
    );
}
