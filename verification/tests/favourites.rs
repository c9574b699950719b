use std::collections::{BTreeMap, BTreeSet};

use moose_rack_core::disk::{Disk, Found};
use moose_rack_core::eslist::{enabled_collections, settings_showing, CollectionFile};
use moose_rack_core::failure::Failure;
use moose_rack_core::favcarry::{
    apply_here, carried_out, carry_on, failures, record_agreement, refuse, told_to_show, Carry,
    Outcome, Report,
};
use moose_rack_core::favmap::{
    as_named_on_card, by_file, by_folder, folders, folders_to_list, ids, on_card, plain_rel_dir,
    EsPaths, FileKey, Known, Listed, Platform, Rom,
};
use moose_rack_core::favrun::{
    held_as, members_of_file, plan_from, stars_on_card, Collection, Held, Item, Plan, ALL_STARS,
};
use moose_rack_core::favsync::{listed, reconcile, settled, Baseline, Move};
use moose_rack_core::gamelist::Gamelist;

fn strings(v: &[&str]) -> Vec<String> {
    v.iter().map(|s| s.to_string()).collect()
}

fn set(v: &[i64]) -> BTreeSet<i64> {
    v.iter().copied().collect()
}

// ---------------------------------------------------------------------------
// What is on the card
// ---------------------------------------------------------------------------

/// The handheld keeps these two in folders of other names.
fn flip() -> Platform {
    Platform {
        folders: vec![("sfc".into(), "snes".into()), ("famicom".into(), "nes".into())],
    }
}

#[test]
fn the_server_folder_and_the_card_folder_are_not_the_same_name() {
    let p = flip();
    assert_eq!(p.save_folder("sfc"), "snes");
    assert_eq!(p.save_folder("famicom"), "nes");
    assert_eq!(p.save_folder("gb"), "gb");
}

fn rom(id: i64, rel_dir: &str, fs_name: &str) -> Rom {
    Rom { id, platform_slug: "sfc".into(), rel_dir: rel_dir.into(), fs_name: fs_name.into() }
}

#[test]
fn a_game_is_only_known_if_it_is_really_on_the_card() {
    let here = vec![Listed {
        folder: "snes".into(),
        rel_dir: String::new(),
        names: strings(&["Chrono Trigger (USA).sfc"]),
    }];
    let roms =
        vec![rom(1, "", "Chrono Trigger (USA).sfc"), rom(2, "", "Secret of Mana (USA).sfc")];
    let known = on_card(&roms, &flip(), &here);
    assert_eq!(known.len(), 1);
    assert_eq!(known[0].rel_path(), "Chrono Trigger (USA).sfc");
}

#[test]
fn a_multi_disc_game_is_found_by_the_playlist_es_actually_shows() {
    let here = strings(&["Final Fantasy VII (USA).m3u", "Chrono Trigger (USA).sfc"]);
    assert_eq!(
        as_named_on_card(&here, "Final Fantasy VII (USA)").as_deref(),
        Some("Final Fantasy VII (USA).m3u")
    );
    // and a single-file game is still matched as itself
    assert_eq!(
        as_named_on_card(&here, "Chrono Trigger (USA).sfc").as_deref(),
        Some("Chrono Trigger (USA).sfc")
    );
    // something genuinely absent stays absent
    assert_eq!(as_named_on_card(&here, "Tony Hawks Pro Skater 2 (USA).chd"), None);
}

#[test]
fn the_hidden_disc_folder_is_never_what_gets_starred() {
    let here = strings(&[".Final Fantasy VII (USA)", "Final Fantasy VII (USA).m3u"]);
    assert_eq!(
        as_named_on_card(&here, "Final Fantasy VII (USA)").as_deref(),
        Some("Final Fantasy VII (USA).m3u")
    );
}

#[test]
fn a_game_in_a_subfolder_and_its_twin_at_the_top_are_two_games() {
    let roms = vec![
        rom(11, "", "Foo (USA).sfc"),
        rom(12, "Aftermarket", "Foo (USA).sfc"),
        rom(13, "Aftermarket", "Bar (USA).sfc"),
        // Not on this card, and a path that would leave the folder.
        rom(14, "../../etc", "Foo (USA).sfc"),
    ];
    let platform = flip();
    assert_eq!(
        folders_to_list(&roms, &platform),
        [
            ("snes".to_string(), String::new()),
            ("snes".to_string(), "Aftermarket".to_string()),
        ]
    );
    let here = vec![
        Listed {
            folder: "snes".into(),
            rel_dir: String::new(),
            names: strings(&["Foo (USA).sfc", "Aftermarket"]),
        },
        Listed {
            folder: "snes".into(),
            rel_dir: "Aftermarket".into(),
            names: strings(&["Foo (USA).sfc", "Bar (USA).sfc"]),
        },
    ];
    let known = on_card(&roms, &platform, &here);
    let mut paths: Vec<String> =
        known.iter().map(|k| format!("{}/{}", k.folder, k.rel_path())).collect();
    paths.sort();
    assert_eq!(
        paths,
        ["snes/Aftermarket/Bar (USA).sfc", "snes/Aftermarket/Foo (USA).sfc", "snes/Foo (USA).sfc"]
    );
    let index = by_file(&known);
    let at = |path: &str| FileKey { folder: "snes".to_owned(), path: path.to_owned() };
    let top = *index.get(&at("Foo (USA).sfc")).unwrap();
    let below = *index.get(&at("Aftermarket/Foo (USA).sfc")).unwrap();
    assert_ne!(top, below, "the twins became one game");
    assert_eq!(top, 11);
    assert_eq!(below, 12);
    let k = known.iter().find(|k| k.rom_id == below).unwrap();
    let es = EsPaths::under("/card");
    assert_eq!(es.roms, "/card/roms");
    assert_eq!(k.full_path(&es.roms), "/card/roms/snes/Aftermarket/Foo (USA).sfc");
    // And a collection file's absolute path finds its way back.
    assert_eq!(
        es.locate("/card/roms/snes/Aftermarket/Foo (USA).sfc"),
        Some(("snes".to_owned(), "Aftermarket/Foo (USA).sfc".to_owned()))
    );
    assert_eq!(es.locate("/elsewhere/snes/Foo.sfc"), None);
    assert_eq!(es.locate("/card/roms/snes"), None);
    assert_eq!(es.locate("/card/roms/snes/"), None);
    assert_eq!(es.locate("/card/roms"), None);
    assert_eq!(es.locate("/card/romsnes/Foo.sfc"), None);
}

#[test]
fn a_folder_that_would_leave_the_card_is_no_folder() {
    assert_eq!(plain_rel_dir("a/b").as_deref(), Some("a/b"));
    assert_eq!(plain_rel_dir("a\\b").as_deref(), Some("a/b"));
    assert_eq!(plain_rel_dir("").as_deref(), Some(""));
    assert_eq!(plain_rel_dir("a//b/").as_deref(), Some("a/b"));
    assert_eq!(plain_rel_dir("/etc"), None);
    assert_eq!(plain_rel_dir("\\\\server\\share"), None);
    assert_eq!(plain_rel_dir("/"), None);
    assert_eq!(plain_rel_dir("../a"), None);
    assert_eq!(plain_rel_dir("./a"), None);
    assert_eq!(plain_rel_dir("C:/a"), None);
}

#[test]
fn known_games_group_and_index_the_way_the_writers_need_them() {
    let known = vec![
        Known { rom_id: 1, folder: "snes".into(), rel_dir: String::new(), file: "A.sfc".into() },
        Known { rom_id: 2, folder: "snes".into(), rel_dir: String::new(), file: "B.sfc".into() },
        Known { rom_id: 3, folder: "gb".into(), rel_dir: String::new(), file: "C.gb".into() },
    ];
    assert_eq!(ids(&known), [1, 2, 3].into());
    let grouped: BTreeMap<String, Vec<Known>> = by_folder(&known).into_iter().collect();
    assert_eq!(grouped["snes"].len(), 2);
    assert_eq!(grouped["gb"].len(), 1);
    assert_eq!(
        by_file(&known).get(&FileKey { folder: "gb".to_owned(), path: "C.gb".to_owned() }),
        Some(&3)
    );
    assert_eq!(folders(&known), ["gb", "snes"]);
}

#[test]
fn the_es_layout_is_where_it_actually_is_on_a_knulli_card() {
    let p = EsPaths::knulli();
    assert_eq!(p.gamelist("snes"), "/userdata/roms/snes/gamelist.xml");
    assert_eq!(
        p.collection("Arcade Fighting"),
        "/userdata/system/configs/emulationstation/collections/custom-Arcade Fighting.cfg"
    );
    assert_eq!(p.settings, "/userdata/system/configs/emulationstation/es_settings.cfg");
}

#[test]
fn a_rom_path_is_absolute_because_that_is_what_a_collection_file_holds() {
    let k = Known {
        rom_id: 1,
        folder: "fbneo".into(),
        rel_dir: String::new(),
        file: "64street.zip".into(),
    };
    assert_eq!(k.full_path("/userdata/roms"), "/userdata/roms/fbneo/64street.zip");
}

#[test]
fn a_path_leads_back_to_its_game() {
    let k = Known {
        rom_id: 1,
        folder: "snes".into(),
        rel_dir: "a/b".into(),
        file: "c.sfc".into(),
    };
    for root in ["/userdata", "/", "relative", ""] {
        let es = EsPaths::under(root);
        assert_eq!(
            es.locate(&k.full_path(&es.roms)),
            Some(("snes".to_owned(), "a/b/c.sfc".to_owned())),
            "{root}"
        );
    }
}

// ---------------------------------------------------------------------------
// How a list is kept
// ---------------------------------------------------------------------------

fn collection(id: &str, name: &str, roms: &[i64]) -> Collection {
    Collection {
        id: id.into(),
        name: name.into(),
        rom_ids: roms.to_vec(),
        is_virtual: false,
        is_smart: false,
    }
}

#[test]
fn a_best_of_list_is_the_stars_in_one_gamelist() {
    let folders = strings(&["snes", "gb"]);
    assert_eq!(
        held_as(&collection("34", "★ Best of snes", &[]), &folders, &flip()),
        Held::Stars(strings(&["snes"]))
    );
}

#[test]
fn a_best_of_list_named_for_the_servers_slug_finds_the_cards_folder() {
    let folders = strings(&["snes"]);
    assert_eq!(
        held_as(&collection("34", "★ Best of sfc", &[]), &folders, &flip()),
        Held::Stars(strings(&["snes"]))
    );
}

#[test]
fn an_ordinary_collection_is_a_file() {
    let folders = strings(&["fbneo"]);
    assert_eq!(
        held_as(&collection("45", "Arcade Fighting", &[]), &folders, &flip()),
        Held::File
    );
}

#[test]
fn a_library_wide_favourites_list_covers_every_system_on_the_card() {
    let folders = strings(&["snes", "gb"]);
    assert_eq!(
        held_as(&collection("7", ALL_STARS, &[]), &folders, &flip()),
        Held::Stars(folders)
    );
}

#[test]
fn another_starred_list_is_its_own_collection_not_every_star() {
    let folders = strings(&["snes", "gb"]);
    for name in ["★ Shmups", "Favourites", "★ favourites"] {
        assert_eq!(
            held_as(&collection("8", name, &[]), &folders, &flip()),
            Held::File,
            "{name}"
        );
    }
}

fn item(name: &str, held: Held, moves: Vec<Move>, agreed: &[i64]) -> Item {
    Item { id: name.into(), name: name.into(), held, moves, agreed: set(agreed) }
}

#[test]
fn the_headline_says_which_way_things_are_going() {
    let mut plan = Plan::default();
    plan.items.push(item(
        "★ Best of snes",
        Held::File,
        vec![Move::StarHere(1), Move::StarOnServer(2), Move::StarOnServer(3)],
        &[],
    ));
    assert_eq!(plan.headline(), "1 to apply here, 2 to send");
    assert_eq!(plan.total(), 3);

    let mut only_up = Plan::default();
    only_up.items.push(item("x", Held::File, vec![Move::StarOnServer(2)], &[]));
    assert_eq!(only_up.headline(), "1 to send");
}

#[test]
fn a_plan_with_nothing_in_it_says_how_many_lists_agreed() {
    let plan = Plan { agreeing: 27, ..Plan::default() };
    assert_eq!(plan.headline(), "nothing to do — 27 lists already match");
    assert_eq!(Plan::default().headline(), "no collections to sync");
}

#[test]
fn an_item_separates_what_goes_up_from_what_comes_off() {
    let i = item(
        "x",
        Held::File,
        vec![
            Move::StarHere(1),
            Move::StarOnServer(2),
            Move::UnstarOnServer(3),
            Move::UnstarHere(4),
        ],
        &[],
    );
    assert_eq!(i.to_server(), vec![2]);
    assert_eq!(i.off_server(), vec![3]);
    assert_eq!(i.unstars(), 2);
    assert_eq!(i.here(), 2);
}

// ---------------------------------------------------------------------------
// Planning
// ---------------------------------------------------------------------------

/// A card in memory.
struct Card {
    files: BTreeMap<String, Vec<u8>>,
    es: EsPaths,
}

impl Card {
    fn disk(&self) -> Disk {
        Disk {
            files: self
                .files
                .iter()
                .map(|(p, b)| (p.clone(), Found::Bytes(b.clone())))
                .collect(),
        }
    }

    fn write(&mut self, path: String, bytes: &[u8]) {
        self.files.insert(path, bytes.to_vec());
    }

    fn set_star(&mut self, folder: &str, rel_path: &str, on: bool) {
        let at = self.es.gamelist(folder);
        let mut list = Gamelist::load_or_empty(&self.disk(), &at).unwrap();
        list.set_favorite(rel_path, on);
        if let Some(text) = list.save() {
            self.write(at, text.as_bytes());
        }
    }

    fn gamelist(&self, folder: &str) -> Gamelist {
        Gamelist::load(&self.disk(), &self.es.gamelist(folder)).unwrap()
    }

    /// Carries a plan out. A move on the server fails where `server` says so.
    fn run(
        &mut self,
        plan: &Plan,
        baseline: &mut Baseline,
        server: Result<(), &str>,
        anyway: bool,
    ) -> Result<Report, Failure> {
        refuse(plan, anyway)?;
        let mut outcomes = Vec::new();
        let mut sent = false;
        loop {
            match carry_on(plan, &outcomes, sent) {
                Carry::Send(i) => match server {
                    Err(why) if !i.to_server().is_empty() || !i.off_server().is_empty() => {
                        outcomes.push(Outcome::Refused(Failure::new(why)));
                    }
                    _ => sent = true,
                },
                Carry::Here(i) => {
                    let work = apply_here(&self.disk(), &self.es, &plan.known, i);
                    let n = work.writes.len();
                    for w in work.writes {
                        self.write(w.path, w.text.as_bytes());
                    }
                    outcomes.push(Outcome::Here(match work.stopped {
                        None => Ok(n),
                        Some(e) => Err(e),
                    }));
                    sent = false;
                }
                Carry::Over => break,
            }
        }
        let (report, files) = carried_out(plan, &outcomes, baseline);
        let settings = self.es.settings.clone();
        let shown = match settings_showing(&self.disk(), &settings, &files) {
            Ok(Some(text)) => {
                self.write(settings, text.as_bytes());
                Ok(true)
            }
            Ok(None) => Ok(false),
            Err(e) => Err(e),
        };
        Ok(told_to_show(report, shown))
    }
}

fn snes(rom_id: i64, rel_dir: &str, file: &str) -> Known {
    Known { rom_id, folder: "snes".into(), rel_dir: rel_dir.into(), file: file.into() }
}

fn card() -> (Card, Vec<Known>) {
    let es = EsPaths::under("/card");
    let mut card = Card { files: BTreeMap::new(), es };
    let at = card.es.gamelist("snes");
    card.write(
        at,
        b"<?xml version=\"1.0\"?>\n<gameList>\n\t<game>\n\t\t<path>./Chrono Trigger (USA).sfc</path>\n\t\t<name>Chrono Trigger</name>\n\t\t<desc>Time travel.</desc>\n\t</game>\n</gameList>\n",
    );
    let known =
        vec![snes(1, "", "Chrono Trigger (USA).sfc"), snes(2, "", "Secret of Mana (USA).sfc")];
    (card, known)
}

fn plan(card: &Card, lists: Vec<Collection>, known: &Vec<Known>, baseline: &Baseline) -> Plan {
    plan_from(&lists, &card.es, known, baseline, &flip(), &card.disk())
}

#[test]
fn a_list_that_agrees_refreshes_a_stale_baseline() {
    let (mut card, known) = card();
    card.set_star("snes", "Chrono Trigger (USA).sfc", true);
    let lists = || vec![collection("34", "★ Best of snes", &[1, 900])];
    let mut baseline = Baseline::default();
    baseline.agreed.insert("34".into(), set(&[5653, 812]));
    let p = plan(&card, lists(), &known, &baseline);
    assert!(p.items.is_empty(), "{:?}", p.items);
    assert!(record_agreement(&p, &mut baseline));
    assert_eq!(baseline.of("34"), set(&[1]), "900 is not on this card and must not be recorded");
    // Recorded once; the next look has nothing to change.
    let p = plan(&card, lists(), &known, &baseline);
    assert!(!record_agreement(&p, &mut baseline));

    // And now the unstar travels.
    card.set_star("snes", "Chrono Trigger (USA).sfc", false);
    let p = plan(&card, lists(), &known, &baseline);
    assert_eq!(p.items[0].moves, vec![Move::UnstarOnServer(1)]);
}

#[test]
fn a_collection_file_that_cannot_be_read_leaves_its_list_out() {
    let (mut card, known) = card();
    let at = card.es.collection("Arcade Fighting");
    card.write(at, b"/userdata/roms/snes/\xff.sfc\n");
    let mut baseline = Baseline::default();
    baseline.agreed.insert("45".into(), set(&[1, 2]));
    let p = plan(&card, vec![collection("45", "Arcade Fighting", &[1, 2])], &known, &baseline);
    assert!(p.items.is_empty(), "planned moves from a file it could not read: {:?}", p.items);
    assert!(p.already.is_empty(), "recorded agreement for it");
    assert_eq!(p.unread.len(), 1);
    assert!(p.unread[0].starts_with("Arcade Fighting: reading "), "{}", p.unread[0]);
    assert!(p.headline().contains("could not read Arcade Fighting"), "{}", p.headline());
}

#[test]
fn a_gamelist_that_cannot_be_read_leaves_its_list_out() {
    let (mut card, known) = card();
    let at = card.es.gamelist("snes");
    card.write(at, b"<gameList>\xff</gameList>");
    let mut baseline = Baseline::default();
    baseline.agreed.insert("34".into(), set(&[1]));
    let p = plan(&card, vec![collection("34", "★ Best of snes", &[1])], &known, &baseline);
    assert!(p.items.is_empty());
    assert_eq!(p.unread.len(), 1);
}

#[test]
fn a_star_in_a_subfolder_is_that_game_and_not_its_twin() {
    let (mut card, mut known) = card();
    known.push(snes(3, "Aftermarket", "Chrono Trigger (USA).sfc"));
    card.set_star("snes", "Aftermarket/Chrono Trigger (USA).sfc", true);
    let nothing = Baseline::default();
    let p = plan(&card, vec![collection("34", "★ Best of snes", &[])], &known, &nothing);
    assert_eq!(p.items[0].moves, vec![Move::StarOnServer(3)]);

    // And from a collection file, by its absolute path.
    let at = card.es.collection("Hacks");
    let line = format!("{}/snes/Aftermarket/Chrono Trigger (USA).sfc\n", card.es.roms);
    card.write(at, line.as_bytes());
    let p = plan(&card, vec![collection("9", "Hacks", &[])], &known, &nothing);
    assert_eq!(p.items[0].moves, vec![Move::StarOnServer(3)]);
    // Read on their own, both hold that game.
    let index = by_file(&known);
    assert_eq!(
        stars_on_card(&card.disk(), &card.es, &strings(&["snes"]), &index).unwrap(),
        set(&[3])
    );
    assert_eq!(members_of_file(&card.disk(), &card.es, "Hacks", &index).unwrap(), set(&[3]));
}

#[test]
fn generated_lists_are_not_synced_and_the_biggest_come_first() {
    let (card, known) = card();
    let mut generated = collection("1", "By genre", &[1]);
    generated.is_virtual = true;
    let lists = vec![
        generated,
        collection("2", "One", &[1]),
        collection("3", "Two", &[1, 2]),
    ];
    let p = plan(&card, lists, &known, &Baseline::default());
    let names: Vec<&str> = p.items.iter().map(|i| i.name.as_str()).collect();
    assert_eq!(names, ["Two", "One"]);
}

// ---------------------------------------------------------------------------
// Carrying it out
// ---------------------------------------------------------------------------

#[test]
fn a_list_that_already_agrees_is_still_written_down() {
    let mut baseline = Baseline::default();
    let (mut card, known) = card();
    let p = Plan {
        agreeing: 1,
        already: vec![("34".to_owned(), set(&[1, 2]))],
        known,
        ..Plan::default()
    };
    let report = card.run(&p, &mut baseline, Err("no server"), false).unwrap();
    assert_eq!(report.applied_here + report.sent + report.files_written, 0);
    assert!(!report.shown && report.failed.is_empty(), "did work for a list with none to do");
    assert!(baseline.seen("34"));
    assert_eq!(baseline.of("34"), set(&[1, 2]));
}

fn card_plan(known: Vec<Known>, items: Vec<Item>) -> Plan {
    Plan { items, known, ..Plan::default() }
}

fn best_of_snes(moves: Vec<Move>, agreed: &[i64]) -> Item {
    item("★ Best of snes", Held::Stars(vec!["snes".into()]), moves, agreed)
}

fn run(card: &mut Card, plan: &Plan, anyway: bool) -> Result<Report, Failure> {
    card.run(plan, &mut Baseline::default(), Err("no server"), anyway)
}

#[test]
fn a_star_from_the_server_lands_in_the_gamelist_and_keeps_the_scraping() {
    let (mut card, known) = card();
    let p = card_plan(known, vec![best_of_snes(vec![Move::StarHere(1)], &[1])]);
    let report = run(&mut card, &p, false).unwrap();
    assert_eq!(report.files_written, 1);
    let list = card.gamelist("snes");
    assert!(list.favorites().contains(&"Chrono Trigger (USA).sfc".to_string()));
    assert!(list.known().len() == 1, "invented a second block for a game it already had");
}

#[test]
fn one_gamelist_is_written_once_however_many_of_its_games_moved() {
    let (mut card, known) = card();
    let moves = vec![Move::StarHere(1), Move::StarHere(2)];
    let p = card_plan(known, vec![best_of_snes(moves, &[1, 2])]);
    let report = run(&mut card, &p, false).unwrap();
    assert_eq!(report.files_written, 1, "wrote the file twice");
    assert_eq!(card.gamelist("snes").favorites().len(), 2);
}

#[test]
fn a_collection_from_the_server_becomes_a_file_of_absolute_paths() {
    let (mut card, known) = card();
    let p = card_plan(
        known,
        vec![item("Arcade Fighting", Held::File, vec![Move::StarHere(2)], &[2])],
    );
    run(&mut card, &p, false).unwrap();
    let file =
        CollectionFile::load(&card.disk(), &card.es.collection("Arcade Fighting")).unwrap();
    assert!(file.entries.contains("/card/roms/snes/Secret of Mana (USA).sfc"));
}

#[test]
fn the_collections_a_plan_touches_are_the_ones_es_is_told_to_show() {
    let (mut card, known) = card();
    let at = card.es.settings.clone();
    card.write(
        at.clone(),
        b"<?xml version=\"1.0\"?>\n<config>\n\t<string name=\"ThemeSet\" value=\"knulli\" />\n</config>\n",
    );
    let p = card_plan(
        known,
        vec![
            item("Arcade Fighting", Held::File, vec![Move::StarHere(1)], &[1]),
            best_of_snes(vec![Move::StarHere(1)], &[1]),
        ],
    );
    assert!(p.writes_card(&card.disk(), &card.es).unwrap());
    let report = run(&mut card, &p, false).unwrap();
    assert!(report.shown);
    let settings = String::from_utf8(card.files[&at].clone()).unwrap();
    assert_eq!(enabled_collections(&settings), vec!["Arcade Fighting".to_owned()]);
    assert!(
        !settings.contains("★ Best of snes"),
        "a starred list is not a custom collection — it is the stars themselves"
    );
    assert!(!run(&mut card, &p, false).unwrap().shown, "rewrote settings that already said this");
}

#[test]
fn a_mass_unstar_is_refused_without_anyway() {
    let (mut card, _) = card();
    let known: Vec<Known> = (1..=30).map(|i| snes(i, "", &format!("G{i}.sfc"))).collect();
    for k in &known {
        card.set_star("snes", &k.file, true);
    }
    let before = card.files.clone();
    let unstars: Vec<Move> = (1..=21).map(Move::UnstarHere).collect();
    let rest: Vec<i64> = (22..=30).collect();
    let mut p = card_plan(known, vec![best_of_snes((1..=21).map(Move::UnstarHere).collect(), &rest)]);
    let mut baseline = Baseline::default();
    let e = card.run(&p, &mut baseline, Err("no server"), false).unwrap_err().message();
    assert!(e.contains("21 stars off"), "{e}");
    assert!(e.contains("--anyway"), "{e}");
    assert_eq!(card.files, before, "wrote the card");
    assert_eq!(baseline.agreed.len(), 0);
    assert!(p.headline().contains("refused"), "{}", p.headline());

    // Three of four in one list is more than half of it.
    let three = (1..=3).map(Move::UnstarOnServer).collect();
    p.items = vec![item("Arcade Maze", Held::File, three, &[4])];
    let e = run(&mut card, &p, false).unwrap_err().message();
    assert!(e.contains("3 of the 4 in Arcade Maze"), "{e}");

    // Two is an ordinary edit.
    p.items =
        vec![item("Arcade Maze", Held::File, (1..=2).map(Move::UnstarHere).collect(), &[])];
    assert!(p.too_many_unstars().is_none());

    // Told to, it goes.
    p.items = vec![best_of_snes(unstars, &rest)];
    run(&mut card, &p, true).unwrap();
    assert_eq!(card.gamelist("snes").favorites().len(), 9);
}

#[test]
fn a_list_that_failed_is_named_with_why() {
    let (mut card, known) = card();
    let p = card_plan(
        known,
        vec![item("Arcade Fighting", Held::File, vec![Move::StarOnServer(1)], &[1])],
    );
    let mut baseline = Baseline::default();
    let why = "POST http://nowhere.invalid/api/collections/Arcade Fighting/roms";
    let report = card.run(&p, &mut baseline, Err(why), false).unwrap();
    assert_eq!(report.failed.len(), 1);
    assert!(
        report.failed[0].starts_with("Arcade Fighting: POST http://nowhere.invalid/api/collections/"),
        "{}",
        report.failed[0]
    );
    assert!(!baseline.seen("Arcade Fighting"), "moved the baseline of a list that did not go through");
    assert_eq!(failures(&p, &report), report.failed);
}

#[test]
fn what_was_carried_out_is_summed_up() {
    let mut report = Report::default();
    assert_eq!(report.summary(), "nothing to change");
    report.applied_here = 2;
    report.sent = 1;
    assert_eq!(report.summary(), "2 applied here, 1 sent");
}

// ---------------------------------------------------------------------------
// Which way a star travels
// ---------------------------------------------------------------------------

#[test]
fn a_star_travels_to_the_side_without_it() {
    let known = set(&[1, 2, 3, 4]);
    let moves = reconcile(&set(&[1, 3]), &set(&[2, 3]), &set(&[]), &known);
    assert_eq!(moves, [Move::StarOnServer(1), Move::StarHere(2)]);
    assert_eq!(settled(&set(&[1, 3]), &set(&[2, 3]), &moves, &known), set(&[1, 2, 3]));
}

#[test]
fn an_unstar_travels_where_the_two_agreed_before() {
    let known = set(&[1, 2]);
    let moves = reconcile(&set(&[2]), &set(&[1, 2]), &set(&[1, 2]), &known);
    assert_eq!(moves, [Move::UnstarOnServer(1)]);
    let moves = reconcile(&set(&[1, 2]), &set(&[2]), &set(&[1, 2]), &known);
    assert_eq!(moves, [Move::UnstarHere(1)]);
    // Without an agreement the same difference adds a star.
    let moves = reconcile(&set(&[1, 2]), &set(&[2]), &set(&[]), &known);
    assert_eq!(moves, [Move::StarOnServer(1)]);
}

#[test]
fn a_game_that_is_not_on_the_card_does_not_move() {
    assert!(reconcile(&set(&[]), &set(&[9]), &set(&[9]), &set(&[1])).is_empty());
    assert!(reconcile(&set(&[]), &set(&[]), &set(&[]), &set(&[1])).is_empty());
}

#[test]
fn a_set_is_listed_in_order() {
    assert_eq!(listed(&set(&[5, -1, 3])), [-1, 3, 5]);
}

#[test]
fn the_stars_a_run_adds_are_no_part_of_what_a_list_had() {
    // The list had 1 to 4, and loses three of them.
    let mut p = Plan::default();
    p.items.push(item(
        "Arcade Maze",
        Held::File,
        vec![
            Move::UnstarHere(1),
            Move::UnstarHere(2),
            Move::UnstarHere(3),
            Move::StarHere(5),
            Move::StarHere(6),
        ],
        &[4, 5, 6],
    ));
    let why = p.too_many_unstars().unwrap();
    assert!(why.contains("3 of the 4 in Arcade Maze"), "{why}");
    // Three of six is half of them, and no more.
    p.items[0].agreed = set(&[4, 5, 6, 7, 8]);
    assert_eq!(p.too_many_unstars(), None);
}
