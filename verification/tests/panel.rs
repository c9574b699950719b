use std::collections::BTreeSet;

use moose_rack_core::desktop::{self, media_wanted, next_pass, pass_text, Art, Pass};
use moose_rack_core::disk::{Change, Disk, Found};
use moose_rack_core::failure::Failure;
use moose_rack_core::favcarry::{self, apply_here, carried_out, Outcome};
use moose_rack_core::favmap::{EsPaths, Known};
use moose_rack_core::favrun::{Held, Item, Plan};
use moose_rack_core::favsync::{Baseline, Move};
use moose_rack_core::flows::{
    app_icons, due_again, no_artwork, no_built_files, scrape_begins, AppIcon, Event, Fetched, Halt,
    IconFlow, LaunchFlow, LibraryFlow, PassEvent, SetFlow, Step as LaunchStep, Tried,
};
use moose_rack_core::gamelist::Gamelist;
use moose_rack_core::jobs::{self, Job, Next, Task};
use moose_rack_core::model::{Kind, Page, Row};
use moose_rack_core::patch::{Choice, Form, Patch, Paths, Step};
use moose_rack_core::rows::{patches, sync};
use moose_rack_core::sync::{Review, Stage, Stars};
use moose_rack_core::worker::{
    apply, apply_stars, cache_search_path, es_backups, failed_while, find_cache, no_index,
    refreshed, refuse_under_es, refuse_without_server, resolved, saves_done, saves_found, settling,
    stars_done, Doing, Message, SaveConflict, Summary,
};

fn said(m: &Message) -> &str {
    match m {
        Message::Note(s) | Message::Failed(s) => s,
        Message::Finished { note, .. } => note,
        other => panic!("{other:?}"),
    }
}

// ---------------------------------------------------------------------------
// The rows
// ---------------------------------------------------------------------------

const CONF: &str = "/card/userdata/system/knulli.conf";

fn hotkeys() -> Vec<Patch> {
    let step = |body: Option<&str>| Step::Block {
        file: CONF.into(),
        id: "hotkeys".into(),
        body: body.map(str::to_string),
        form: Form::Settings,
    };
    vec![Patch {
        id: "hotkeys",
        title: "Hotkeys",
        detail: "Writes a block of RetroArch keys into knulli.conf.",
        choices: vec![
            Choice { name: "off".into(), steps: vec![step(None)] },
            Choice {
                name: "ON".into(),
                steps: vec![step(Some("global.retroarch.input_hotkey=1"))],
            },
        ],
    }]
}

fn disk_with(text: &str) -> Disk {
    Disk { files: vec![(CONF.to_string(), Found::Bytes(text.as_bytes().to_vec()))] }
}

fn nothing() -> Disk {
    Disk { files: Vec::new() }
}

/// The file once the hotkeys are on.
fn applied() -> String {
    match hotkeys()[0].choices[1].steps[0].apply(&nothing()).unwrap() {
        Change::Write { bytes, .. } => String::from_utf8(bytes).unwrap(),
        other => panic!("{other:?}"),
    }
}

#[test]
fn nothing_is_queued_before_anything_is_touched() {
    assert!(patches(&hotkeys(), "test image", &nothing()).pending().is_empty());
    assert!(sync(None, "not synced yet", "not checked yet").pending().is_empty());
}

#[test]
fn the_menu_opens_at_what_the_device_actually_is() {
    let page = patches(&hotkeys(), "test image", &disk_with(&applied()));
    let row = page.rows.iter().find(|r| r.id == "hotkeys").unwrap();
    assert_eq!(row.value(), "ON");
    assert!(!row.pending());
}

#[test]
fn a_file_edited_behind_our_back_shows_as_changed() {
    let edited = applied().replace("global.retroarch", "# global.retroarch");
    let page = patches(&hotkeys(), "test image", &disk_with(&edited));
    let row = page.rows.iter().find(|r| r.id == "hotkeys").unwrap();
    assert!(row.adrift());
    assert_eq!(row.value(), "changed");
    assert!(!row.pending(), "still not queued until it is chosen");
}

#[test]
fn the_flip_is_never_offered_game_downloads() {
    let page = sync(None, "not synced yet", "not checked yet");
    assert!(
        page.rows.iter().all(|r| r.id != "offline"),
        "taking games offline is too heavy for the handheld"
    );
}

#[test]
fn the_sync_tab_opens_on_something_you_can_press() {
    assert!(sync(None, "not synced yet", "not checked yet")
        .selected()
        .is_some_and(|r| r.selectable()));
}

#[test]
fn the_patches_tab_says_which_knulli_and_does_not_open_on_it() {
    let page = patches(&hotkeys(), "scarab 2026/05/10 22:54", &nothing());
    assert_eq!(page.rows[0].id, "knulli");
    assert_eq!(page.rows[0].value(), "scarab 2026/05/10 22:54");
    assert!(page.selected().is_some_and(|r| r.selectable()));
    assert_ne!(page.selected().map(|r| r.id.as_str()), Some("knulli"));
}

#[test]
fn every_row_of_the_sync_tab_is_there() {
    let page = sync(Some("moose.local"), "ready", "3 to send");
    let ids: Vec<&str> = page.rows.iter().map(|r| r.id.as_str()).collect();
    assert_eq!(ids, ["server", "status", "refresh", "check", "conflicts", "stars"]);
    assert_eq!(page.rows[0].value(), "moose.local");
    assert_eq!(page.rows[5].value(), "3 to send");
    assert_eq!(sync(None, "", "").rows[0].value(), "not configured");
}

#[test]
fn a_dial_that_was_turned_is_pending() {
    let mut row =
        Row::dial("x", "X", "", vec!["off".to_string(), "ON".to_string()], Some(0));
    assert_eq!(row.value(), "off");
    assert!(!row.pending());
    if let Kind::Dial { chosen, .. } = &mut row.kind {
        *chosen = Some(1);
    }
    assert_eq!(row.value(), "ON");
    assert!(row.pending());
    let page = Page::new(vec![Row::fact("f", "F", "v"), row]);
    assert_eq!(page.pending().len(), 1);
    assert_eq!(page.cursor, 1);
}

// ---------------------------------------------------------------------------
// What the worker says
// ---------------------------------------------------------------------------

#[test]
fn the_last_word_wins() {
    let mut stage = Stage::Idle;
    apply(
        &mut stage,
        &mut Vec::new(),
        vec![
            Message::Note("reading the library index".into()),
            Message::Note("scanning saves".into()),
        ],
    );
    assert_eq!(stage.note(), "scanning saves");
}

#[test]
fn a_plan_arriving_after_notes_is_what_is_shown() {
    let mut stage = Stage::Idle;
    apply(
        &mut stage,
        &mut Vec::new(),
        vec![
            Message::Note("scanning saves".into()),
            Message::Plan(Box::new(Review { lines: Vec::new() })),
        ],
    );
    assert!(matches!(stage, Stage::Ready(_)));
    assert!(!stage.is_busy(), "a plan means the worker is done");
}

#[test]
fn a_failure_is_not_left_looking_busy() {
    let mut stage = Stage::Asking { note: "asking the server".into() };
    apply(&mut stage, &mut Vec::new(), vec![Message::Failed("no route to host".into())]);
    assert_eq!(stage.note(), "failed: no route to host");
    assert!(!stage.is_busy());
}

#[test]
fn nothing_said_changes_nothing() {
    let mut stage = Stage::Asking { note: "scanning saves".into() };
    apply(&mut stage, &mut Vec::new(), vec![]);
    assert_eq!(stage, Stage::Asking { note: "scanning saves".into() });
}

#[test]
fn a_finished_run_leaves_its_conflicts_to_be_settled() {
    let mut stage = Stage::Asking { note: "x".into() };
    let mut held = Vec::new();
    let conflict = SaveConflict { rom_id: 4, file_name: "a.srm".into() };
    apply(
        &mut stage,
        &mut held,
        vec![Message::Finished { moved: 2, note: "2 moved".into(), conflicts: vec![conflict] }],
    );
    assert_eq!(stage, Stage::Done { moved: 2, conflicts: 1, note: "2 moved".into() });
    assert_eq!(held.len(), 1);
    assert_eq!(held[0].rom_id, 4);
}

fn one_star(moves: Vec<Move>) -> Plan {
    Plan {
        items: vec![Item {
            id: "34".into(),
            name: "★ Best of snes".into(),
            held: Held::Stars(vec!["snes".into()]),
            moves,
            agreed: BTreeSet::from([1i64]),
        }],
        known: vec![Known {
            rom_id: 1,
            folder: "snes".into(),
            rel_dir: String::new(),
            file: "Chrono Trigger (USA).sfc".into(),
        }],
        ..Plan::default()
    }
}

#[test]
fn the_second_press_carries_out_the_plan_that_was_shown() {
    let es = EsPaths::under("/card");
    let disk = Disk {
        files: vec![(
            es.gamelist("snes"),
            Found::Bytes(
                b"<gameList>\n\t<game>\n\t\t<path>./Chrono Trigger (USA).sfc</path>\n\t</game>\n</gameList>\n"
                    .to_vec(),
            ),
        )],
    };
    // The first press shows a plan, and the panel holds on to it.
    let mut stars = Stars::Asking("starting".into());
    let mut held = None;
    apply_stars(
        &mut stars,
        &mut held,
        vec![Message::Stars(Box::new(one_star(vec![Move::StarHere(1)])))],
    );
    assert!(!stars.is_busy());
    let plan = held.take().unwrap();

    // The second carries that one out.
    let work = apply_here(&disk, &es, &plan.known, &plan.items[0]);
    assert!(work.stopped.is_none());
    assert_eq!(work.writes.len(), 1);
    let mut baseline = Baseline::default();
    let outcomes = vec![Outcome::Here(Ok(work.writes.len()))];
    let (report, _) = carried_out(&plan, &outcomes, &mut baseline);
    let mut stars = Stars::Asking("starting".into());
    apply_stars(&mut stars, &mut held, vec![stars_done(&plan, &report)]);
    assert!(matches!(stars, Stars::Done(_)), "{stars:?}");
    let list = Gamelist::from_text(&work.writes[0].path, &work.writes[0].text);
    assert!(list.favorites().contains(&"Chrono Trigger (USA).sfc".to_string()));
    assert_eq!(baseline.of("34"), BTreeSet::from([1i64]));
    assert_eq!(es_backups("/card"), "/card/es-backup");
}

#[test]
fn a_list_that_did_not_sync_is_named_not_counted() {
    let mut plan = one_star(vec![Move::StarOnServer(1)]);
    plan.items[0].name = "Arcade Fighting".into();
    plan.unread = vec!["Arcade Maze: reading custom-Arcade Maze.cfg: invalid UTF-8".into()];
    let mut baseline = Baseline::default();
    let outcomes =
        vec![Outcome::Refused(Failure::new("POST http://nowhere.invalid/api/collections/45/roms"))];
    let (report, _) = carried_out(&plan, &outcomes, &mut baseline);
    let mut stars = Stars::Asking("starting".into());
    apply_stars(&mut stars, &mut None, vec![stars_done(&plan, &report)]);
    let Stars::Failed(why) = &stars else { panic!("{stars:?}") };
    assert!(why.contains("2 list(s) did not sync"), "{why}");
    assert!(why.contains("Arcade Fighting: POST"), "{why}");
    assert!(why.contains("Arcade Maze: reading"), "{why}");
}

#[test]
fn the_index_is_looked_for_where_it_actually_is() {
    let app = "/card/moose-patch";
    let look = cache_search_path(app);
    assert_eq!(find_cache(&look, &Vec::new()), None, "nothing to find yet");

    let theirs = "/card/moose-patch/../moose-rack/cache.sqlite3".to_string();
    let mut files = vec![theirs.clone()];
    assert_eq!(find_cache(&look, &files), Some(theirs));

    // Ours wins once it exists.
    let ours = "/card/moose-patch/cache.sqlite3".to_string();
    files.push(ours.clone());
    assert_eq!(find_cache(&look, &files), Some(ours));
}

#[test]
fn each_failure_says_where_it_was() {
    let e = Failure::new("no such file").context("opening it");
    assert_eq!(
        said(&failed_while(Doing::OpeningTheIndex, &e)),
        "opening the index: opening it: no such file"
    );
    assert_eq!(said(&failed_while(Doing::Talking, &e)), "opening it: no such file");
    assert_eq!(said(&no_index(true)), "no library index — the stars cannot be matched to the server");
    assert_eq!(said(&refuse_without_server("  ").unwrap()), "no server in config.toml");
    assert!(refuse_without_server("http://x").is_none());
    assert!(refuse_under_es(&Ok(true), false).is_none());
    assert!(refuse_under_es(&Ok(false), true).is_none());
    assert!(refuse_under_es(&Ok(true), true).is_some());
    assert_eq!(said(&refuse_under_es(&Err(Failure::new("bad")), false).unwrap()), "bad");
}

#[test]
fn a_run_says_what_moved_and_what_went_wrong() {
    let summary = |problems: Vec<String>| Summary {
        uploaded: 2,
        downloaded: 3,
        headline: "done".into(),
        problems,
        conflicts: Vec::new(),
    };
    let both = saves_done(summary(Vec::new()), true);
    assert!(matches!(&both[..], [Message::Finished { moved: 5, .. }]));
    let down = saves_done(summary(vec!["a.srm: no".into()]), false);
    assert!(matches!(&down[..], [Message::Report(_), Message::Finished { moved: 3, .. }]));
    assert_eq!(said(&settling(3)), "settling 3 conflict(s)");
    assert_eq!(said(&saves_found(4, 1)), "4 saves found, 1 unmatched — asking the server");
    assert_eq!(said(&refreshed(&Ok((2, 9)))), "9 games across 2 systems");
    let done = resolved(&vec![
        ("a.srm".to_string(), Ok(())),
        ("b.srm".to_string(), Err(Failure::new("gone"))),
    ]);
    assert!(matches!(&done[..], [Message::Report(_), Message::Finished { moved: 1, .. }]));
}

#[test]
fn a_report_of_nothing_finishes_with_nothing() {
    let m = stars_done(&Plan::default(), &favcarry::Report::default());
    assert!(matches!(m, Message::Finished { moved: 0, .. }));
}

// ---------------------------------------------------------------------------
// The window
// ---------------------------------------------------------------------------

#[test]
fn a_sync_without_a_server_says_what_is_here() {
    assert_eq!(next_pass(Pass::Local, false), Pass::Done);
    assert_eq!(next_pass(Pass::Local, true), Pass::Server);
    assert_eq!(next_pass(Pass::Pictures, true), Pass::Done);
    assert_eq!(pass_text(Pass::Games), "fetching the library…");
    assert_eq!(
        desktop::without_server(0, "/roms"),
        "No games found under /roms and no server configured."
    );
    assert_eq!(
        desktop::without_server(4, "/roms"),
        "4 games found on this device. No server configured."
    );
}

#[test]
fn a_sync_says_only_what_happened() {
    let mut s = desktop::LibrarySync {
        incremental: true,
        total: 10,
        platforms: 2,
        upserted: 3,
        pruned: 0,
        collections: 0,
        renamed: 0,
        local: 0,
        folded: 0,
        icons: 0,
    };
    assert_eq!(desktop::synced(&s), "Incremental sync: 10 games across 2 platforms (3 updated)");
    s.incremental = false;
    s.pruned = 1;
    s.local = 5;
    s.folded = 4;
    s.icons = 7;
    assert_eq!(
        desktop::synced(&s),
        "Full sync: 10 games across 2 platforms (3 updated, 1 removed, 5 found on this device of which 4 matched the server), 7 console pictures"
    );
}

#[test]
fn a_bios_sync_shows_the_first_notes() {
    let notes: Vec<String> = (1..=8).map(|i| format!("n{i}")).collect();
    assert_eq!(desktop::bios_synced("ok", &notes), "ok\nn1\nn2\nn3\nn4\nn5\nn6");
    assert_eq!(desktop::bios_synced("ok", &Vec::new()), "ok");
}

#[test]
fn the_media_that_is_wanted_is_fetched() {
    let kinds = desktop::Kinds {
        list_art: "covers".into(),
        mixed: "miximages".into(),
        videos: "videos".into(),
        all: vec!["covers".to_string(), "videos".to_string(), "marquees".to_string()],
    };
    let got = |v: Vec<desktop::Media>| -> Vec<(bool, String)> {
        v.into_iter().map(|m| (m.art, m.kind)).collect()
    };
    assert!(media_wanted(Art::Nothing, false, false, &kinds).is_empty());
    assert_eq!(
        got(media_wanted(Art::Covers, true, false, &kinds)),
        [
            (true, "covers".to_string()),
            (true, "miximages".to_string()),
            (false, "videos".to_string())
        ]
    );
    assert_eq!(
        got(media_wanted(Art::Full, false, true, &kinds)),
        [
            (true, "covers".to_string()),
            (true, "miximages".to_string()),
            (false, "covers".to_string()),
            (false, "marquees".to_string()),
            (false, "manuals".to_string())
        ]
    );
}

#[test]
fn progress_is_said_now_and_then() {
    assert!(!desktop::time_to_say(4, 12, 5));
    assert!(desktop::time_to_say(5, 12, 5));
    assert!(desktop::time_to_say(12, 12, 5));
    assert_eq!(desktop::set_progress(5, 12, 3), "5/12 — 3 downloaded");
    assert_eq!(desktop::scrape_progress(10, 12, 3), "10/12 — 3 found");
    assert_eq!(desktop::set_taken(3, 12, &None), "3 game(s) downloaded, 12 checked");
    assert_eq!(
        desktop::set_taken(3, 12, &Some(Err("no route".into()))),
        "3 game(s) downloaded, 12 checked\nBIOS did not sync: no route"
    );
    assert_eq!(
        desktop::rom_taken(&desktop::Taken::Downloaded {
            path: "/r/a.sfc".into(),
            verified: "md5".into()
        }),
        "downloaded /r/a.sfc (md5)"
    );
    assert_eq!(
        desktop::rom_taken(&desktop::Taken::AlreadyHave("/r/a.sfc".into())),
        "already had /r/a.sfc"
    );
    assert_eq!(desktop::expected_size(0), None);
    assert_eq!(desktop::expected_size(-1), None);
    assert_eq!(desktop::expected_size(9), Some(9));
    assert_eq!(desktop::stem_of("Chrono Trigger (USA).sfc"), "Chrono Trigger (USA)");
    assert_eq!(desktop::stem_of(".hidden"), ".hidden");
}

#[test]
fn covers_stream_in_small_groups() {
    let mut q = desktop::CoverQueue::new(10);
    let mut started = Vec::new();
    while let Some(i) = q.start() {
        started.push(i);
    }
    assert_eq!(started, [0, 1, 2, 3, 4, 5, 6, 7]);
    q.landed(Some(true));
    assert_eq!(q.hand_over(), None);
    assert_eq!(q.start(), Some(8));
    q.landed(Some(false));
    q.landed(None);
    q.landed(Some(false));
    assert_eq!(q.hand_over(), None);
    q.landed(Some(false));
    assert_eq!(q.hand_over(), Some(true));
    assert_eq!(q.start(), Some(9));
    assert_eq!(q.start(), None);
    for _ in 0..4 {
        q.landed(None);
    }
    q.landed(Some(false));
    assert!(!q.is_done());
    assert_eq!(q.hand_over(), Some(false));
    assert!(q.is_done());
}

#[test]
fn a_game_that_cannot_be_launched_says_why() {
    let why = |known, ra, here| desktop::can_launch(7, known, ra, here).unwrap_err().full();
    assert_eq!(why(false, true, true), "no rom with id 7");
    assert_eq!(why(true, false, true), "RetroArch not found");
    assert_eq!(why(true, true, false), "not downloaded yet");
    assert!(desktop::can_launch(7, true, true, true).is_ok());
}

#[test]
fn a_launch_tells_what_it_did() {
    let mut launch = desktop::Launch::new("Tetris", "gb", false);
    launch.core_fetched("gambatte", &Ok(true));
    launch.shaders_fetched(&Err("offline".to_string()));
    launch.bios_fetched(&Ok(0), &Vec::new()).unwrap();
    let quiet = desktop::AutoSync { note: None, failed: None, conflicts: Vec::new() };
    launch.before_play(Some(quiet)).unwrap();
    launch.played(true, "3 minutes");
    let left = launch.after_play(Some(desktop::AutoSync {
        note: Some("saves: 1 sent".into()),
        failed: Some("timeout".into()),
        conflicts: Vec::new(),
    }));
    assert!(left.is_empty());
    assert_eq!(
        launch.finished(None),
        "downloaded the gambatte core; could not fetch shaders: offline; played for 3 minutes; saves: 1 sent; saves: NOT uploaded — timeout; Tetris exited cleanly"
    );
    let bare = desktop::Launch::new("Tetris", "gb", false);
    assert_eq!(bare.finished(Some("signal: 9")), "Tetris exited with signal: 9");
}

#[test]
fn a_missing_bios_stops_a_launch_unless_told_to_play_anyway() {
    let required = vec![("a.bin".to_string(), true), ("b.bin".to_string(), false)];
    let failed: Result<usize, String> = Err("404".to_string());
    let mut launch = desktop::Launch::new("X", "psx", false);
    match launch.bios_fetched(&failed, &required) {
        Err(desktop::Stop::BiosMissing(why)) => {
            assert_eq!(why, "BIOS_MISSING:psx needs b.bin — 404");
        }
        other => panic!("{other:?}"),
    }
    let mut anyway = desktop::Launch::new("X", "psx", true);
    anyway.bios_fetched(&failed, &required).unwrap();
    anyway.before_play(None).unwrap();
    assert_eq!(
        anyway.notes,
        ["could not fetch BIOS: 404", "saves: not synced — you chose to play anyway"]
    );
    let mut have = desktop::Launch::new("X", "psx", false);
    have.bios_fetched(&failed, &vec![("a.bin".to_string(), true)]).unwrap();
}

#[test]
fn no_game_starts_on_saves_that_are_not_settled() {
    let sync = |failed: Option<&str>, conflicts: Vec<SaveConflict>| {
        Some(desktop::AutoSync { note: None, failed: failed.map(str::to_string), conflicts })
    };
    let mut launch = desktop::Launch::new("X", "psx", false);
    match launch.before_play(sync(Some("no route"), Vec::new())) {
        Err(desktop::Stop::SaveOffline(why)) => assert_eq!(why, "SAVE_OFFLINE:no route"),
        other => panic!("{other:?}"),
    }
    let conflict = SaveConflict { rom_id: 1, file_name: "a.srm".into() };
    match launch.before_play(sync(None, vec![conflict])) {
        Err(desktop::Stop::SaveConflict(cs)) => assert_eq!(cs.len(), 1),
        other => panic!("{other:?}"),
    }
}

#[test]
fn pictures_are_counted_by_style() {
    let styles = vec![("Flat ART".to_string(), 3), ("Photo".to_string(), 0), ("Logo".to_string(), 2)];
    assert_eq!(desktop::icons_fetched("x", &styles).unwrap(), "3 flat art, 2 logo");
    assert_eq!(
        desktop::icons_fetched("x", &vec![("A".to_string(), 0)]).unwrap_err().full(),
        "x: no console pictures could be fetched"
    );
    assert_eq!(desktop::set_to_fetch("", "d"), ("d".to_string(), true));
    assert_eq!(desktop::set_to_fetch("c", "d"), ("c".to_string(), false));
}

#[test]
fn an_icon_is_found_in_the_bundle_first() {
    let dirs = vec![
        "assets/appicons/built/moose".to_string(),
        "/res/assets/appicons/built/moose".to_string(),
    ];
    assert_eq!(
        desktop::appicon_dir(Some("/res"), "moose", &dirs).as_deref(),
        Some("/res/assets/appicons/built/moose")
    );
    assert_eq!(
        desktop::appicon_dir(None, "moose", &dirs).as_deref(),
        Some("assets/appicons/built/moose")
    );
    assert_eq!(desktop::appicon_dir(None, "elk", &dirs), None);
    assert_eq!(desktop::icon_worn(&desktop::Worn::Now), "Icon changed.");
}

#[test]
fn a_card_that_was_read_has_the_paths_it_says() {
    assert_eq!(Paths::new("/card").knulli_conf(), CONF);
}

// ---------------------------------------------------------------------------
// Jobs, task by task
// ---------------------------------------------------------------------------

fn run_job(job: &Job) -> (Vec<Task>, Vec<String>) {
    let mut tasks = Vec::new();
    let mut notes = Vec::new();
    loop {
        match jobs::next(job, tasks.len(), Ok(()), 4, 1) {
            Next::Do { say, task } => {
                if let Some(m) = say {
                    notes.push(said(&m).to_string());
                }
                tasks.push(task);
            }
            Next::Stop(m) => panic!("{m:?}"),
            Next::Ended => return (tasks, notes),
        }
    }
}

#[test]
fn a_job_runs_its_tasks_in_order_and_says_what_it_is_at() {
    let (tasks, notes) = run_job(&Job::Negotiate);
    assert_eq!(tasks[0], Task::HaveServer);
    assert_eq!(tasks.last(), Some(&Task::PreviewStates));
    assert_eq!(
        notes,
        [
            "reading the library index",
            "scanning saves",
            "4 saves found, 1 unmatched — asking the server"
        ]
    );
    assert_eq!(run_job(&Job::Resolve(3)).1, ["settling 3 conflict(s)"]);
    assert_eq!(run_job(&Job::StarsApply).1, ["applying"]);
    assert_eq!(run_job(&Job::PullAll).1, ["taking everything the server holds"]);
    assert_eq!(run_job(&Job::Refresh).1, ["rebuilding the game list"]);
    assert_eq!(
        run_job(&Job::Stars).1,
        ["looking at what is on the card", "asking the server for its collections"]
    );
    assert_eq!(
        run_job(&Job::CarryOut).1,
        ["reading the library index", "scanning saves", "syncing"]
    );
}

#[test]
fn a_task_that_fails_ends_the_job_with_what_it_was_at() {
    let fail = |job: &Job, done: usize| {
        match jobs::next(job, done, Err(Failure::new("no").context("asking")), 0, 0) {
            Next::Stop(m) => said(&m).to_string(),
            other => panic!("{other:?}"),
        }
    };
    assert_eq!(
        fail(&Job::Stars, 0),
        "no library index — the stars cannot be matched to the server"
    );
    assert_eq!(
        fail(&Job::CarryOut, 0),
        "no library index — the save list cannot be matched to the server"
    );
    assert_eq!(fail(&Job::Stars, 1), "opening the index: asking: no");
    assert_eq!(fail(&Job::Stars, 2), "reading the card: asking: no");
    assert_eq!(fail(&Job::Stars, 3), "starting the network: asking: no");
    assert_eq!(fail(&Job::Stars, 4), "asking: no");
    assert_eq!(fail(&Job::Stars, 6), "saving what was agreed: asking: no");
    assert_eq!(fail(&Job::StarsApply, 0), "asking: no");
    assert_eq!(fail(&Job::Refresh, 0), "no server in config.toml");
}

#[test]
fn what_was_agreed_is_saved_after_the_work() {
    for job in [Job::Stars, Job::StarsApply] {
        let tasks = run_job(&job).0;
        assert!(matches!(tasks.last(), Some(Task::SaveAgreed) | Some(Task::KeepAgreement)));
    }
    assert_eq!(run_job(&Job::Refresh).0.last(), Some(&Task::SwapIndex));
    assert_eq!(run_job(&Job::StarsApply).0[0], Task::LeaveEsAlone);
}

// ---------------------------------------------------------------------------
// The window's longer jobs, step by step
// ---------------------------------------------------------------------------

fn quiet() -> desktop::AutoSync {
    desktop::AutoSync { note: None, failed: None, conflicts: Vec::new() }
}

fn played(status: Option<&str>) -> Event {
    Event::Played {
        recorded: true,
        spelled: "2 minutes".into(),
        status: status.map(str::to_string),
    }
}

#[test]
fn a_launch_goes_through_its_steps() {
    let mut f = LaunchFlow::new(desktop::Launch::new("Tetris", "gb", false), true, true);
    assert_eq!(f.begin(), LaunchStep::Core);
    let mut at = |e: Event| f.came(e).unwrap();
    assert_eq!(at(Event::Core { core: "gambatte".into(), came: Ok(true) }), LaunchStep::Shaders);
    assert_eq!(at(Event::Shaders(Ok(false))), LaunchStep::Bios);
    assert_eq!(at(Event::Bios { fetched: Ok(2), required: Vec::new() }), LaunchStep::Plan);
    assert_eq!(at(Event::Planned(Ok(()))), LaunchStep::SavesBefore);
    assert_eq!(at(Event::SavesBefore(quiet())), LaunchStep::Play);
    assert_eq!(at(played(None)), LaunchStep::SavesAfter);
    assert_eq!(at(Event::SavesAfter(quiet())), LaunchStep::Finished);
    assert_eq!(
        f.finished(),
        "downloaded the gambatte core; fetched 2 BIOS file(s); played for 2 minutes; Tetris exited cleanly"
    );
}

#[test]
fn a_launch_told_to_play_anyway_asks_nothing_of_the_saves() {
    let mut f = LaunchFlow::new(desktop::Launch::new("Tetris", "gb", true), false, false);
    assert_eq!(f.begin(), LaunchStep::Plan);
    assert_eq!(f.came(Event::Planned(Ok(()))).unwrap(), LaunchStep::Play);
    assert_eq!(f.came(played(Some("signal: 9"))).unwrap(), LaunchStep::Finished);
    assert_eq!(
        f.finished(),
        "saves: not synced — you chose to play anyway; played for 2 minutes; Tetris exited with signal: 9"
    );
}

#[test]
fn a_launch_stops_where_it_should() {
    let new = || LaunchFlow::new(desktop::Launch::new("X", "psx", false), true, false);
    let at = |step: LaunchStep| LaunchFlow { at: step, ..new() };
    let mut f = new();
    assert_eq!(
        f.came(Event::Core { core: "c".into(), came: Ok(false) }).unwrap(),
        LaunchStep::Bios,
        "no shaders to make sure of"
    );
    let required = vec![("b.bin".to_string(), false)];
    assert!(matches!(
        f.came(Event::Bios { fetched: Err("404".into()), required }),
        Err(Halt::Ask(desktop::Stop::BiosMissing(_)))
    ));
    assert!(matches!(
        at(LaunchStep::Plan).came(Event::Planned(Err("no installed core".into()))),
        Err(Halt::Failed(_))
    ));
    let conflicted = desktop::AutoSync {
        note: None,
        failed: None,
        conflicts: vec![SaveConflict { rom_id: 1, file_name: "a.srm".into() }],
    };
    assert!(matches!(
        at(LaunchStep::SavesBefore).came(Event::SavesBefore(conflicted)),
        Err(Halt::Ask(desktop::Stop::SaveConflict(_)))
    ));
    assert!(matches!(at(LaunchStep::Play).came(Event::NotPlayed("gone".into())), Err(Halt::Failed(_))));
}

#[test]
fn a_library_sync_goes_through_its_passes() {
    let (mut f, first) = LibraryFlow::new(true);
    assert_eq!(first, Pass::Local);
    assert_eq!(f.came(PassEvent::Local(Some(5))), Ok(Pass::Server));
    assert_eq!(f.came(PassEvent::Checked), Ok(Pass::Games));
    let got = Fetched { platforms: 2, upserted: 3, incremental: false, pruned: Some(1) };
    assert_eq!(f.came(PassEvent::Games(Ok(got))), Ok(Pass::Collections));
    assert_eq!(f.came(PassEvent::Collections(None)), Ok(Pass::Pictures));
    assert_eq!(f.came(PassEvent::Pictures(Some(7))), Ok(Pass::Done));
    assert_eq!(
        f.finished(10, 0, 4, "/roms"),
        "Full sync: 10 games across 2 platforms (3 updated, 1 removed, 5 found on this device of which 4 matched the server), 7 console pictures"
    );
    assert_eq!(f.came(PassEvent::Games(Err("no route".into()))), Err("no route".to_string()));
    let (mut alone, _) = LibraryFlow::new(false);
    assert_eq!(alone.came(PassEvent::Local(None)), Ok(Pass::Done));
    assert_eq!(
        alone.finished(0, 0, 0, "/roms"),
        "No games found under /roms and no server configured."
    );
}

#[test]
fn a_set_is_taken_game_by_game() {
    let mut f = SetFlow::new(6);
    let mut said = Vec::new();
    while let Some(i) = f.next() {
        said.extend(f.took(if i % 2 == 0 { Some(true) } else { None }));
    }
    assert_eq!(said, ["5/6 — 3 downloaded", "6/6 — 3 downloaded"]);
    assert_eq!(
        f.finished(&Some(Ok("2 BIOS files".into()))),
        "3 game(s) downloaded, 6 checked\n2 BIOS files"
    );
    assert_eq!(scrape_begins(0), Err("every game already has artwork".to_string()));
    assert_eq!(scrape_begins(3), Ok("3 to look up…".to_string()));
    assert!(!due_again(99));
    assert!(due_again(100));
}

#[test]
fn pictures_are_fetched_style_by_style() {
    let mut f = IconFlow::new(2, 4).unwrap();
    let mut said = Vec::new();
    for console in 0..4 {
        said.extend(f.looks());
        assert!(f.tried(Tried::NoPicture), "the next name is tried");
        assert!(f.tried(Tried::NotFetched));
        assert!(!f.tried(Tried::Fetched(console > 0)), "one that was fetched ends it");
    }
    assert!(f.style_over("Flat"));
    for _ in 0..4 {
        said.extend(f.looks());
    }
    assert!(!f.style_over("Photo"), "a style with nothing in it is not kept");
    assert_eq!(said, ["8 of 8…"]);
    assert_eq!(f.finished("set").unwrap(), "3 flat");
    assert!(IconFlow::new(usize::MAX, 2).is_none());
    assert_eq!(no_artwork("x").full(), "no artwork recorded for x");
}

#[test]
fn the_icon_that_is_worn_is_marked() {
    let icon = |id: &str, preview: Option<&str>| AppIcon {
        id: id.into(),
        label: id.to_uppercase(),
        preview: preview.map(str::to_string),
    };
    let v = app_icons(&vec![icon("moose", Some("/p.png")), icon("elk", None)], "elk");
    assert_eq!(v[0].preview, "/p.png");
    assert!(!v[0].selected && v[1].selected);
    assert_eq!(v[1].preview, "");
    assert_eq!(v[1].label, "ELK");
    assert_eq!(
        no_built_files("elk").full(),
        "elk has no built files — run scripts/build-appicons.sh"
    );
}

#[test]
fn taking_everything_down_leaves_no_conflicts_to_settle() {
    let summary = || Summary {
        uploaded: 0,
        downloaded: 2,
        headline: "done".into(),
        problems: Vec::new(),
        conflicts: vec![SaveConflict { rom_id: 7, file_name: "a.srm".into() }],
    };
    let down = saves_done(summary(), false);
    assert!(matches!(&down[..], [Message::Finished { conflicts, .. }] if conflicts.is_empty()));
    let both = saves_done(summary(), true);
    assert!(matches!(&both[..], [Message::Finished { conflicts, .. }] if conflicts.len() == 1));
}
