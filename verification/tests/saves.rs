use std::collections::BTreeMap;

use moose_rack_core::legacy::{
    accumulated, is_near, legacy_dirs, merge_into, moves, newest, plan as place, remap_seen, settled,
    start, Moment, OldFile, OldSaves, OldStates, Outcome, Placing, Report, Start, MARKER,
};
use moose_rack_core::save_store::{
    dir_rom_of, id_of_digest, save_id, FoundDir, FoundSave, FoundState, FoundStates, SaveStore,
    StateStore,
};
use moose_rack_core::saves::{decide, key, plan, ClientSaveState, Seen, ServerSave, SyncPlan};
use moose_rack_core::table::Table;

fn c(rom: i64, file: &str, hash: &str) -> ClientSaveState {
    ClientSaveState {
        rom_id: rom,
        file_name: file.into(),
        slot: None,
        emulator: None,
        content_hash: hash.into(),
        updated_at: "2026-09-03T00:00:00Z".into(),
        file_size_bytes: 1,
    }
}

fn s(id: i64, rom: i64, file: &str, hash: &str) -> ServerSave {
    ServerSave {
        id,
        rom_id: rom,
        file_name: file.into(),
        file_size_bytes: 1,
        content_hash: Some(hash.into()),
        slot: None,
        emulator: None,
        updated_at: Some("2026-09-03T00:00:00Z".into()),
    }
}

fn actions(p: &SyncPlan) -> Vec<&str> {
    p.operations.iter().map(|o| o.action.as_str()).collect()
}

#[test]
fn identical_bytes_are_a_no_op_whatever_the_clock_says() {
    let mut client = c(1, "a.srm", "aaa");
    client.updated_at = "1999-01-01T00:00:00Z".into();
    let p = plan("dev", &vec![client], &vec![s(10, 1, "a.srm", "aaa")], &Seen::new());
    assert_eq!(actions(&p), ["no_op"]);
    assert_eq!(p.total_no_op, 1);
}

#[test]
fn only_the_client_has_it_so_upload() {
    let p = plan("dev", &vec![c(1, "a.srm", "aaa")], &vec![], &Seen::new());
    assert_eq!(actions(&p), ["upload"]);
    assert_eq!(p.total_upload, 1);
}

#[test]
fn only_the_server_has_it_so_download() {
    let p = plan("dev", &vec![], &vec![s(10, 1, "a.srm", "aaa")], &Seen::new());
    assert_eq!(actions(&p), ["download"]);
    assert_eq!(p.total_download, 1);
}

#[test]
fn changed_here_alone_is_an_upload() {
    let mut seen = Seen::new();
    seen.insert(key("dev", 1, "a.srm"), "server-hash".into());
    let p = plan(
        "dev",
        &vec![c(1, "a.srm", "new-local")],
        &vec![s(10, 1, "a.srm", "server-hash")],
        &seen,
    );
    assert_eq!(actions(&p), ["upload"]);
}

#[test]
fn changed_on_the_server_alone_is_a_download() {
    let mut seen = Seen::new();
    seen.insert(key("dev", 1, "a.srm"), "local-hash".into());
    let p = plan(
        "dev",
        &vec![c(1, "a.srm", "local-hash")],
        &vec![s(10, 1, "a.srm", "server-moved")],
        &seen,
    );
    assert_eq!(actions(&p), ["download"]);
}

#[test]
fn both_changed_is_a_conflict() {
    let mut seen = Seen::new();
    seen.insert(key("dev", 1, "a.srm"), "the-old-one".into());
    let p = plan(
        "dev",
        &vec![c(1, "a.srm", "local-moved")],
        &vec![s(10, 1, "a.srm", "server-moved")],
        &seen,
    );
    assert_eq!(actions(&p), ["conflict"]);
    assert_eq!(p.total_conflict, 1);
}

#[test]
fn differing_with_no_history_is_a_conflict_not_a_guess() {
    let p = plan(
        "dev",
        &vec![c(1, "a.srm", "local")],
        &vec![s(10, 1, "a.srm", "server")],
        &Seen::new(),
    );
    assert_eq!(actions(&p), ["conflict"]);
}

#[test]
fn another_devices_history_does_not_count_as_ours() {
    let mut seen = Seen::new();
    seen.insert(key("other-device", 1, "a.srm"), "server-hash".into());
    let p = plan(
        "dev",
        &vec![c(1, "a.srm", "local")],
        &vec![s(10, 1, "a.srm", "server-hash")],
        &seen,
    );
    assert_eq!(actions(&p), ["conflict"], "someone else's agreement is not ours");
}

#[test]
fn a_mixed_plan_counts_each_kind() {
    let mut seen = Seen::new();
    seen.insert(key("dev", 2, "b.srm"), "srv-b".into());
    let p = plan(
        "dev",
        &vec![c(1, "a.srm", "same"), c(2, "b.srm", "local-b"), c(3, "c.srm", "only-local")],
        &vec![
            s(10, 1, "a.srm", "same"),
            s(11, 2, "b.srm", "srv-b"),
            s(12, 4, "d.srm", "only-server"),
        ],
        &seen,
    );
    assert_eq!(p.total_no_op, 1);
    assert_eq!(p.total_upload, 2, "b changed here, c is new here");
    assert_eq!(p.total_download, 1, "d is only on the server");
    assert_eq!(p.total_conflict, 0);
}

#[test]
fn saves_are_keyed_by_rom_as_well_as_name() {
    let p = plan("dev", &vec![c(1, "a.srm", "x")], &vec![s(10, 2, "a.srm", "x")], &Seen::new());
    assert_eq!(actions(&p), ["upload", "download"], "different games, not the same save");
}

#[test]
fn each_decision_says_why() {
    let server = Some("s".to_string());
    assert_eq!(decide("s", &server, None).0, "no_op");
    assert_eq!(decide("c", &server, Some("s")).0, "upload");
    assert_eq!(decide("c", &server, Some("c")).0, "download");
    assert_eq!(decide("c", &server, Some("x")).0, "conflict");
    assert_eq!(decide("c", &server, None).0, "conflict");
    assert_eq!(decide("s", &server, None).1, "both sides hold the same bytes");
    assert_eq!(
        decide("c", &server, None).1,
        "both copies changed since they last agreed; pick one"
    );
}

// ---------------------------------------------------------------------------
// The stores
// ---------------------------------------------------------------------------

/// A store of saves, with the files beside it in memory.
struct Saves {
    store: SaveStore,
    files: BTreeMap<(i64, String), Vec<u8>>,
}

impl Saves {
    fn new() -> Saves {
        Saves { store: SaveStore::new("/saves"), files: BTreeMap::new() }
    }

    fn found(&self, rom: Option<i64>) -> Vec<FoundDir> {
        let mut dirs: BTreeMap<i64, Vec<FoundSave>> = BTreeMap::new();
        for ((r, name), bytes) in &self.files {
            if rom.is_none() || rom == Some(*r) {
                dirs.entry(*r).or_default().push(FoundSave {
                    name: name.clone(),
                    bytes: bytes.clone(),
                    modified: None,
                });
            }
        }
        dirs.into_iter().map(|(r, files)| FoundDir { name: r.to_string(), files }).collect()
    }

    fn list(&self, rom: Option<i64>) -> Vec<ServerSave> {
        self.store.list(&self.found(rom), &Vec::new())
    }

    fn write(&mut self, rom: i64, name: &str, bytes: &[u8]) -> ServerSave {
        self.files.insert((rom, name.to_string()), bytes.to_vec());
        let all = self.list(Some(rom));
        let w = self.store.written(&all, name).unwrap();
        s(w.id, w.rom_id, &w.file_name, w.content_hash.as_deref().unwrap())
    }

    fn read(&self, id: i64) -> Option<&[u8]> {
        let path = self.store.read(&self.list(None), id)?;
        self.files
            .iter()
            .find(|((r, name), _)| self.store.path(*r, name) == path)
            .map(|(_, b)| b.as_slice())
    }
}

#[test]
fn a_written_save_comes_back_with_its_hash_and_size() {
    let mut st = Saves::new();
    let w = st.write(16777223, "battery.srm", b"hello");
    assert_eq!(w.rom_id, 16777223);
    assert_eq!(st.list(None)[0].file_size_bytes, 5);
    assert_eq!(w.content_hash.as_deref(), Some("5d41402abc4b2a76b9719d911017c592"));
    assert_eq!(st.list(Some(16777223)).len(), 1);
}

#[test]
fn the_same_name_under_two_games_is_two_saves() {
    let mut st = Saves::new();
    st.write(16777217, "battery.srm", b"one");
    st.write(16777218, "battery.srm", b"two");
    let all = st.list(None);
    assert_eq!(all.len(), 2);
    assert_ne!(all[0].id, all[1].id, "ids must not collide across games");
    assert_eq!(st.read(all[0].id).unwrap(), b"one");
    assert_eq!(st.read(all[1].id).unwrap(), b"two");
}

#[test]
fn ids_are_stable_and_positive() {
    let a = save_id(42, "battery.srm");
    assert_eq!(a, save_id(42, "battery.srm"), "same input, same id");
    assert_ne!(a, save_id(43, "battery.srm"));
    assert_ne!(a, save_id(42, "other.srm"));
    assert!(a > 0, "a negative id reads as an error elsewhere");
}

#[test]
fn rewriting_a_save_changes_its_hash_but_not_its_id() {
    let mut st = Saves::new();
    let first = st.write(16777219, "a.srm", b"before");
    let second = st.write(16777219, "a.srm", b"after");
    assert_eq!(first.id, second.id);
    assert_ne!(first.content_hash, second.content_hash);
    assert_eq!(st.read(second.id).unwrap(), b"after");
}

#[test]
fn listing_an_empty_or_missing_store_is_not_an_error() {
    let st = Saves::new();
    assert!(st.list(None).is_empty());
    assert!(st.list(Some(16777315)).is_empty());
    assert!(st.read(12345).is_none());
}

#[test]
fn a_stored_save_matching_the_client_plans_as_no_op() {
    let mut st = Saves::new();
    let w = st.write(16777221, "a.srm", b"same-bytes");
    let client = ClientSaveState {
        rom_id: 16777221,
        file_name: "a.srm".into(),
        slot: None,
        emulator: None,
        content_hash: w.content_hash.clone().unwrap(),
        updated_at: "whenever".into(),
        file_size_bytes: 10,
    };
    let p = plan("dev", &vec![client], &st.list(None), &Seen::new());
    assert_eq!(actions(&p), ["no_op"]);
}

#[test]
fn every_id_survives_a_round_trip_through_javascript() {
    const MAX: i64 = (1i64 << 53) - 1;
    for rom in [-10793i64, -1, 1, 7, 999_999] {
        for name in ["a.srm", "ActRaiser (USA).srm", "", "x".repeat(200).as_str()] {
            let id = save_id(rom, name);
            assert!(id > 0, "{rom}/{name}: ids must stay positive");
            assert!(id <= MAX, "{rom}/{name}: {id} cannot be represented in a browser");
            // What `JSON.parse` would make of it, which is what comes back.
            assert_eq!(id as f64 as i64, id, "{rom}/{name}: {id} changes value as a double");
        }
    }
    assert_eq!(id_of_digest(&[0; 16]), 1);
    assert_eq!(id_of_digest(&[5, 0, 0, 0, 0, 0, 0, 0]), 5);
    assert!(id_of_digest(&[0xff; 16]) <= MAX);
}

#[test]
fn the_same_save_gets_the_same_id() {
    assert_eq!(
        save_id(-10793, "ActRaiser (USA).srm"),
        save_id(-10793, "ActRaiser (USA).srm")
    );
    assert_ne!(save_id(-10793, "a.srm"), save_id(-10793, "b.srm"));
    assert_ne!(save_id(1, "a.srm"), save_id(2, "a.srm"));
}

/// A store of states, with the files beside it in memory.
struct States {
    store: StateStore,
    files: BTreeMap<(i64, String), Vec<u8>>,
    sidecars: BTreeMap<(i64, String), String>,
}

impl States {
    fn new() -> States {
        States {
            store: StateStore::new("/saves/_states"),
            files: BTreeMap::new(),
            sidecars: BTreeMap::new(),
        }
    }

    fn write(&mut self, rom: i64, name: &str, emulator: Option<&str>, bytes: &[u8]) -> i64 {
        self.files.insert((rom, name.to_string()), bytes.to_vec());
        match self.store.write(emulator) {
            Some(e) => {
                self.sidecars.insert((rom, name.to_string()), e);
            }
            None => {
                self.sidecars.remove(&(rom, name.to_string()));
            }
        }
        save_id(rom, name)
    }

    fn found(&self, rom: Option<i64>) -> Vec<FoundStates> {
        let mut dirs: BTreeMap<i64, Vec<FoundState>> = BTreeMap::new();
        for ((r, name), bytes) in &self.files {
            if rom.is_some() && rom != Some(*r) {
                continue;
            }
            let sidecar = self.sidecars.get(&(*r, name.clone()));
            let files = dirs.entry(*r).or_default();
            files.push(FoundState {
                name: name.clone(),
                size: bytes.len() as u64,
                modified: None,
                sidecar: sidecar.cloned(),
            });
            if let Some(e) = sidecar {
                files.push(FoundState {
                    name: format!(".{name}.emulator"),
                    size: e.len() as u64,
                    modified: None,
                    sidecar: None,
                });
            }
        }
        dirs.into_iter().map(|(r, files)| FoundStates { name: r.to_string(), files }).collect()
    }

    fn list(&self, rom: Option<i64>) -> Vec<moose_rack_core::save_store::ServerState> {
        self.store.list(&self.found(rom), &Vec::new())
    }

    fn read(&self, id: i64) -> Option<&[u8]> {
        let path = self.store.read(&self.list(None), id)?;
        self.files
            .iter()
            .find(|((r, name), _)| self.store.path(*r, name) == path)
            .map(|(_, b)| b.as_slice())
    }
}

#[test]
fn a_state_round_trips_with_its_emulator() {
    let mut st = States::new();
    let id = st.write(16777223, "Game.state1", Some("snes9x"), b"frozen");
    let all = st.list(Some(16777223));
    assert_eq!(all.len(), 1);
    let w = &all[0];
    assert_eq!(w.id, id);
    assert_eq!(w.rom_id, 16777223);
    assert_eq!(w.file_name, "Game.state1");
    assert_eq!(w.file_size_bytes, 6);
    assert_eq!(w.emulator.as_deref(), Some("snes9x"));
    assert_eq!(st.read(w.id), Some(&b"frozen"[..]));
    assert_eq!(st.list(None).len(), 1);
    assert!(st.list(Some(16777224)).is_empty());
}

#[test]
fn the_emulator_sidecar_is_not_a_state() {
    let mut st = States::new();
    st.write(16777217, "A.state", Some("mesen"), b"x");
    let names: Vec<String> = st.list(None).into_iter().map(|x| x.file_name).collect();
    assert_eq!(names, ["A.state"]);
    assert_eq!(
        st.store.emu_path(16777217, "A.state"),
        "/saves/_states/16777217/.A.state.emulator"
    );
}

#[test]
fn ids_survive_a_rebuild() {
    let mut st = States::new();
    let a = st.write(16777219, "X.state", None, b"one");
    assert_eq!(a, st.list(None)[0].id);
    assert_eq!(a, save_id(16777219, "X.state"));
}

#[test]
fn uploading_again_replaces_and_clears_a_stale_emulator() {
    let mut st = States::new();
    let first = st.write(16777218, "S.state", Some("mupen"), b"aa");
    let second = st.write(16777218, "S.state", None, b"bbbb");
    assert_eq!(first, second, "the same file is the same state");
    let all = st.list(None);
    assert_eq!(all.len(), 1);
    assert_eq!(all[0].file_size_bytes, 4);
    assert_eq!(all[0].emulator, None, "the previous emulator stuck to a new state");
}

#[test]
fn an_unknown_id_reads_nothing() {
    let mut st = States::new();
    st.write(16777217, "A.state", None, b"x");
    assert_eq!(st.read(999), None);
}

#[test]
fn only_a_directory_named_by_a_game_is_one_of_its_saves() {
    assert_eq!(dir_rom_of("16777217", &Vec::new()), Some(16777217));
    assert_eq!(dir_rom_of("_states", &Vec::new()), None);
    assert_eq!(dir_rom_of("12", &vec![12]), None);
}

// ---------------------------------------------------------------------------
// Saves under old ids
// ---------------------------------------------------------------------------

const CT: i64 = 20_000_001;
const RIPTIDE: i64 = 20_000_002;
const ASTRO_A: i64 = 20_000_003;
const ASTRO_B: i64 = 20_000_004;

fn games() -> Vec<(i64, String)> {
    vec![
        (CT, "Chrono Trigger (USA).zip".into()),
        (RIPTIDE, "Rip-Tide Racer (Europe).zip".into()),
        (ASTRO_A, "Astrohawk (World) (Unl).zip".into()),
        (ASTRO_B, "Astrohawk (World) (Unl).zip".into()),
    ]
}

fn folder(id: i64, names: &[&str]) -> OldSaves {
    OldSaves {
        id,
        files: names
            .iter()
            .map(|n| OldFile { name: n.to_string(), local: n.to_string() })
            .collect(),
    }
}

fn at(secs: i64) -> Option<Moment> {
    Some(Moment { secs, nanos: 0 })
}

fn empty() -> Report {
    Report { moved: BTreeMap::new(), states_moved: BTreeMap::new(), left: BTreeMap::new() }
}

/// Carries a plan out where everything moves.
fn all_moved(planned: &Report) -> Report {
    let results: Vec<(Placing, Outcome)> =
        moves(planned).into_iter().map(|p| (p, Outcome::Moved)).collect();
    settled(&results, planned)
}

#[test]
fn a_save_goes_to_the_game_it_is_named_after() {
    let p = place(&vec![folder(5653, &["Chrono Trigger (USA).srm"])], &Vec::new(), &games());
    assert_eq!(start(true, &p), Start::Move);
    let r = all_moved(&p);
    assert_eq!(r.moved.get(&5653), Some(&CT));
    assert!(r.left.is_empty());
}

#[test]
fn states_follow_the_save_folder_with_the_same_old_id() {
    let p = place(
        &vec![folder(-10793, &["Chrono Trigger (USA).srm"])],
        &vec![OldStates { id: -10793, newest: at(1000), newest_save: at(1500) }],
        &games(),
    );
    assert_eq!(
        moves(&p),
        [
            Placing { states: false, old: -10793, new: CT },
            Placing { states: true, old: -10793, new: CT }
        ]
    );
    assert_eq!(all_moved(&p).states_moved.get(&-10793), Some(&CT));
}

#[test]
fn a_name_two_games_share_is_left_alone() {
    let p =
        place(&vec![folder(12, &["Astrohawk (World) (Unl).srm"])], &Vec::new(), &games());
    assert!(p.moved.is_empty());
    assert!(p.left[&12].contains("matches 2 games"), "{:?}", p.left);
    assert_eq!(start(true, &p), Start::Report);
    assert!(moves(&p).is_empty(), "not moved");
}

#[test]
fn a_save_named_after_no_game_is_left_alone() {
    let p = place(
        &vec![folder(6411, &["a-plumber-for-all-seasons_2021-11-22.srm"])],
        &Vec::new(),
        &games(),
    );
    assert!(p.left.contains_key(&6411));
    assert!(moves(&p).is_empty());
}

#[test]
fn an_empty_library_does_not_use_the_migration_up() {
    let saves = vec![folder(5653, &["Chrono Trigger (USA).srm"])];
    assert_eq!(start(false, &place(&saves, &Vec::new(), &Vec::new())), Start::Nothing);
    let r = all_moved(&place(&saves, &Vec::new(), &games()));
    assert_eq!(r.moved.get(&5653), Some(&CT));
    assert_eq!(MARKER, ".stable-ids.json");
}

#[test]
fn a_later_start_places_what_became_placeable() {
    let saves = vec![
        folder(5653, &["Chrono Trigger (USA).srm"]),
        folder(77, &["Late Game (USA).srm"]),
    ];
    let first = all_moved(&place(&saves, &Vec::new(), &games()));
    assert!(first.left.contains_key(&77));
    let kept = accumulated(&empty(), &first);
    let mut more = games();
    more.push((20_000_099, "Late Game (USA).zip".into()));
    let later = vec![folder(77, &["Late Game (USA).srm"])];
    let second = all_moved(&place(&later, &Vec::new(), &more));
    assert_eq!(second.moved.get(&77), Some(&20_000_099));
    let all = accumulated(&kept, &second);
    assert_eq!(all.moved.get(&5653), Some(&CT), "the first start's moves are remembered");
    assert_eq!(all.moved.get(&77), Some(&20_000_099));
    assert!(!all.left.contains_key(&77));
}

#[test]
fn states_written_long_after_the_save_stay_behind() {
    let p = place(
        &vec![folder(-300, &["Chrono Trigger (USA).srm"])],
        &vec![OldStates { id: -300, newest: at(40 * 24 * 3600), newest_save: at(0) }],
        &games(),
    );
    let r = all_moved(&p);
    assert_eq!(r.moved.get(&-300), Some(&CT), "the save still goes home");
    assert!(r.states_moved.is_empty());
    assert!(is_near(&at(0).unwrap(), &at(60).unwrap()));
    assert!(!is_near(&at(0).unwrap(), &at(40 * 24 * 3600).unwrap()));
}

#[test]
fn a_left_behind_save_is_never_listed() {
    let old = vec![12, 9];
    let store = SaveStore::new("/saves");
    let found = vec![FoundDir {
        name: "12".into(),
        files: vec![FoundSave {
            name: "Astrohawk (World) (Unl).srm".into(),
            bytes: b"x".to_vec(),
            modified: None,
        }],
    }];
    assert!(store.list(&found, &old).is_empty());
    let states = StateStore::new("/saves/_states");
    let found = vec![FoundStates {
        name: "9".into(),
        files: vec![FoundState {
            name: "2026-01-01T00-00-00-000Z.state".into(),
            size: 1,
            modified: None,
            sidecar: None,
        }],
    }];
    assert!(states.list(&found, &old).is_empty());
}

#[test]
fn a_file_already_under_the_new_id_is_not_overwritten() {
    let name = "Chrono Trigger (USA).srm";
    let p = place(&vec![folder(5653, &[name])], &Vec::new(), &games());
    let (go, stay) = merge_into(&vec![(name.to_string(), true), ("other.srm".to_string(), false)]);
    assert_eq!(go, ["other.srm"]);
    assert_eq!(stay, [name], "the old one kept aside");
    let results = vec![(moves(&p)[0], Outcome::Clashed(stay))];
    let r = settled(&results, &p);
    assert!(r.left[&5653].contains("already under"), "{:?}", r.left);
}

#[test]
fn a_folder_that_could_not_be_moved_is_left_with_why() {
    let p = place(&vec![folder(5653, &["Chrono Trigger (USA).srm"])], &Vec::new(), &games());
    let r = settled(&vec![(moves(&p)[0], Outcome::Failed("disk full".into()))], &p);
    assert!(r.moved.is_empty());
    assert!(r.left[&5653].contains("disk full"), "{:?}", r.left);
}

#[test]
fn a_save_that_differs_from_its_rom_only_in_case_still_goes_home() {
    let p = place(&vec![folder(1918, &["chrono trigger (usa).srm"])], &Vec::new(), &games());
    assert_eq!(p.moved.get(&1918), Some(&CT));
}

#[test]
fn a_romm_stamped_name_still_matches() {
    // The name it has on this machine is the one without the stamp.
    let saves = vec![OldSaves {
        id: 44,
        files: vec![OldFile {
            name: "Chrono Trigger (USA) [2026-08-06_23-06-01].srm".into(),
            local: "Chrono Trigger (USA).srm".into(),
        }],
    }];
    let p = place(&saves, &Vec::new(), &games());
    assert_eq!(p.moved.get(&44), Some(&CT));
}

#[test]
fn bookkeeping_follows_the_move_and_keeps_what_did_not() {
    let mut seen: Table<String, String> = Table::new();
    seen.insert("dev\u{0}5653\u{0}Chrono Trigger (USA).srm".into(), "h1".into());
    seen.insert("dev\u{0}6411\u{0}plumber.srm".into(), "h2".into());
    seen.insert(format!("dev\u{0}{CT}\u{0}Already.srm"), "h3".into());
    let moved: BTreeMap<i64, i64> = [(5653, CT)].into_iter().collect();
    let old = vec![5653, 6411];
    assert_eq!(remap_seen(&mut seen, &moved, &old), 1);
    assert_eq!(
        seen.get(&format!("dev\u{0}{CT}\u{0}Chrono Trigger (USA).srm")).map(String::as_str),
        Some("h1")
    );
    assert!(
        seen.entries().iter().any(|(k, _)| k.contains("\u{0}6411\u{0}")),
        "an unmoved old id waits for a later start"
    );
    // Idempotent: running it again against the same moves changes nothing.
    assert_eq!(remap_seen(&mut seen, &moved, &old), 0);
    assert!(
        seen.get(&format!("dev\u{0}{CT}\u{0}Already.srm")).is_some(),
        "stable keys untouched"
    );
}

#[test]
fn folders_still_under_old_ids_are_found_in_order() {
    let names: Vec<String> =
        ["_states", "77", "-5", "16777217", "notes", "5653"].iter().map(|s| s.to_string()).collect();
    let found: Vec<(i64, String)> = legacy_dirs(&names, &vec![5653, 77, -5, 12])
        .into_iter()
        .map(|d| (d.id, d.name))
        .collect();
    assert_eq!(
        found,
        [(-5, "-5".to_string()), (77, "77".to_string()), (5653, "5653".to_string())]
    );
}

#[test]
fn the_newest_file_counts_and_sidecars_do_not() {
    let files = vec![
        ("a.state".to_string(), at(10)),
        (".a.state.emulator".to_string(), at(99)),
        ("b.state".to_string(), at(20)),
        ("c.state".to_string(), None),
    ];
    assert_eq!(newest(&files).map(|m| m.secs), Some(20));
    assert!(newest(&Vec::new()).is_none());
}

#[test]
fn saves_of_one_game_and_name_stay_in_the_order_they_were_found() {
    let store = SaveStore::new("/saves");
    let dir = |name: &str, bytes: &[u8]| FoundDir {
        name: name.into(),
        files: vec![FoundSave { name: "a.srm".into(), bytes: bytes.to_vec(), modified: None }],
    };
    let found = vec![dir("7", b"1"), dir("07", b"22"), dir("3", b"333"), dir("+7", b"4444")];
    let all = store.list(&found, &Vec::new());
    let sizes: Vec<i64> = all.iter().map(|s| s.file_size_bytes).collect();
    assert_eq!(sizes, [3, 1, 2, 4]);
    // The first of its name is the one that was written.
    assert_eq!(store.written(&all, "a.srm").unwrap().file_size_bytes, 3);
    assert!(store.written(&all, "b.srm").is_none());
}

#[test]
fn states_of_one_game_and_name_stay_in_the_order_they_were_found() {
    let store = StateStore::new("/states");
    let dir = |name: &str, size: u64| FoundStates {
        name: name.into(),
        files: vec![FoundState { name: "a.state".into(), size, modified: None, sidecar: None }],
    };
    let all = store.list(&vec![dir("07", 2), dir("7", 1), dir("3", 3)], &Vec::new());
    let sizes: Vec<i64> = all.iter().map(|s| s.file_size_bytes).collect();
    assert_eq!(sizes, [3, 2, 1]);
}
