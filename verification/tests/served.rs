use std::collections::BTreeMap;

use base64::Engine;

use moose_rack_core::auth::{hash_password, AuthConfig, Sessions, User};
use moose_rack_core::library::{
    firmware_path, index, named, place_of, platforms, rom_by_id, rom_identifiers, roms,
    scan_firmware, skip_hash, FileHashes, FoundFile, Game, HashKey, DEFAULT_LIMIT,
};
use moose_rack_core::save_store::{
    save_id, FoundDir, FoundSave, FoundState, FoundStates, SaveStore, StateStore,
};
use moose_rack_core::saves::{ClientSaveState, ServerSave};
use moose_rack_core::service::{
    below_root, file_part, is_public, key_for, login, login_as, login_page, logout, negotiate, pick, require_auth,
    root_of, state_name, upload_save, Admission, Credentials, Guard, NotIn, NotTaken, Part,
    Persisted, Request, SignedIn,
};
use moose_rack_core::table::Table;
use moose_rack_core::web::{
    bad_argument, dispatch, media_roots, normalise, page, parameters_of, resolve_media, snake,
    Answer, SHIM,
};

// ---------------------------------------------------------------------------
// Who may in
// ---------------------------------------------------------------------------

fn locked() -> AuthConfig {
    AuthConfig {
        token: Some("owner-secret".into()),
        users: vec![User {
            name: "guest".into(),
            password: hash_password("hunter2").unwrap(),
        }],
        guest: false,
    }
}

fn with_guest() -> AuthConfig {
    let mut c = locked();
    c.guest = true;
    c
}

fn guarded(cfg: AuthConfig) -> Guard {
    Guard { cfg, sessions: Sessions::default() }
}

fn ask(path: &str) -> Request<'_> {
    Request { path, authorization: None, cookie: None, accept: None }
}

fn basic(user: &str, pass: &str) -> String {
    format!(
        "Basic {}",
        base64::engine::general_purpose::STANDARD.encode(format!("{user}:{pass}"))
    )
}

fn let_in(guard: &Guard, path: &str, authorization: &str) -> bool {
    let req = Request { authorization: Some(authorization), ..ask(path) };
    matches!(require_auth(guard, &req), Admission::Admitted(_))
}

#[test]
fn without_credentials_the_library_is_closed() {
    let g = guarded(locked());
    for path in [
        "/",
        "/api/roms",
        "/api/platforms",
        "/api/collections",
        "/api/firmware",
        "/api/config",
        "/api/users/me",
        "/api/saves",
        "/api/roms/1",
        "/api/roms/identifiers",
        "/media",
    ] {
        assert!(
            matches!(require_auth(&g, &ask(path)), Admission::Unknown),
            "{path} answered without credentials"
        );
    }
}

#[test]
fn the_heartbeat_answers_anyone() {
    let g = guarded(locked());
    assert!(matches!(require_auth(&g, &ask("/api/heartbeat")), Admission::Admitted(_)));
}

#[test]
fn the_token_opens_everything_and_a_wrong_one_opens_nothing() {
    let g = guarded(locked());
    assert!(let_in(&g, "/api/roms", "Bearer owner-secret"));
    for bad in ["Bearer wrong", "Bearer ", "Bearer owner-secre", "owner-secret"] {
        assert!(!let_in(&g, "/api/roms", bad), "{bad:?} got in");
    }
}

#[test]
fn a_username_and_password_open_the_library() {
    let g = guarded(locked());
    assert!(let_in(&g, "/api/roms", &basic("guest", "hunter2")));
    for (u, pw) in [("guest", "wrong"), ("nobody", "hunter2"), ("", "")] {
        assert!(!let_in(&g, "/api/roms", &basic(u, pw)), "{u}:{pw} got in");
    }
}

#[test]
fn an_empty_auth_section_leaves_the_service_open() {
    let g = guarded(AuthConfig::default());
    assert!(matches!(require_auth(&g, &ask("/api/roms")), Admission::Admitted(_)));
}

fn with_token(token: &str) -> Credentials<'_> {
    Credentials { token, username: "", password: "", guest: false }
}

fn with_password<'a>(username: &'a str, password: &'a str) -> Credentials<'a> {
    Credentials { token: "", username, password, guest: false }
}

fn as_guest() -> Credentials<'static> {
    Credentials { token: "", username: "", password: "", guest: true }
}

fn cookie_of(s: &SignedIn) -> String {
    s.cookie.split(';').next().unwrap().to_owned()
}

fn with_cookie(guard: &Guard, path: &str, cookie: &str) -> Admission {
    require_auth(guard, &Request { cookie: Some(cookie), ..ask(path) })
}

#[test]
fn login_returns_a_cookie_that_then_works() {
    let mut g = guarded(locked());
    let s = login(&mut g, &with_token("owner-secret")).unwrap();
    assert!(s.cookie.contains("HttpOnly"), "a script must not be able to read it: {}", s.cookie);
    assert!(s.cookie.contains("SameSite=Lax"), "{}", s.cookie);
    assert!(s.owner);
    let cookie = cookie_of(&s);
    let (_, id) = cookie.split_once('=').unwrap();
    assert_eq!(id.len(), 32, "24 bytes of chance: {id}");
    assert!(
        matches!(with_cookie(&g, "/api/roms", &cookie), Admission::Admitted(_)),
        "the cookie login did not carry"
    );
    // And a made-up one does not.
    assert!(matches!(
        with_cookie(&g, "/api/roms", "moose_session=invented"),
        Admission::Unknown
    ));
    // Signed out, it no longer does either.
    assert!(logout(&mut g, Some(&cookie)).contains("Max-Age=0"));
    assert!(matches!(with_cookie(&g, "/api/roms", &cookie), Admission::Unknown));
}

#[test]
fn a_bad_login_is_refused_without_saying_which_half_was_wrong() {
    let mut g = guarded(locked());
    for c in [
        with_token("nope"),
        with_password("guest", "nope"),
        with_password("nobody", "hunter2"),
        with_token(""),
    ] {
        assert_eq!(login(&mut g, &c).err(), Some(NotIn::Refused));
    }
    assert_eq!(g.sessions.len(), 0, "a session was opened");
}

#[test]
fn a_browser_is_redirected_and_a_client_is_told() {
    let g = guarded(locked());
    let html = |path: &'static str| Request { accept: Some("text/html"), ..ask(path) };
    assert!(
        matches!(require_auth(&g, &html("/")), Admission::SignIn),
        "a browser should land on the login page"
    );
    assert!(
        matches!(require_auth(&g, &html("/api/roms")), Admission::Unknown),
        "an API route must never redirect"
    );
}

#[test]
fn the_login_page_is_public() {
    assert!(is_public("/login"));
    assert!(login_page(false).contains("Sign in"));
}

#[test]
fn a_guest_may_read_through_invoke_but_not_write() {
    let g = guarded(locked());
    let of = |auth: &str, cmd: &str| {
        let path = format!("/invoke/{cmd}");
        require_auth(&g, &Request { authorization: Some(auth), ..ask(&path) })
    };
    let guest = basic("guest", "hunter2");
    assert!(matches!(of(&guest, "set_list_art"), Admission::Forbidden(_)));
    assert!(
        !matches!(of("Bearer owner-secret", "set_list_art"), Admission::Forbidden(_)),
        "the owner was refused their own settings"
    );
    assert!(matches!(of(&guest, "roms"), Admission::Admitted(_)));
    // And an unknown command is owner-only, so a guest cannot probe for one that
    // was added without being classified.
    assert!(matches!(of(&guest, "brand_new"), Admission::Forbidden(_)));
}

#[test]
fn a_guest_can_sign_in_with_the_button() {
    let mut g = guarded(with_guest());
    let s = login(&mut g, &as_guest()).unwrap();
    assert!(!s.owner);
    assert!(
        matches!(with_cookie(&g, "/api/roms", &cookie_of(&s)), Admission::Admitted(_)),
        "a guest could not read the library"
    );
}

#[test]
fn a_guest_may_sync_saves_and_may_not_change_settings() {
    let mut g = guarded(with_guest());
    let cookie = cookie_of(&login(&mut g, &as_guest()).unwrap());
    assert!(
        !matches!(with_cookie(&g, "/invoke/sync_saves", &cookie), Admission::Forbidden(_)),
        "saves are shared in that account"
    );
    assert!(matches!(
        with_cookie(&g, "/invoke/set_list_art", &cookie),
        Admission::Forbidden(_)
    ));
}

#[test]
fn guest_access_is_refused_when_it_is_not_switched_on() {
    let mut g = guarded(locked());
    assert_eq!(login(&mut g, &as_guest()).err(), Some(NotIn::Refused));
    assert_eq!(g.sessions.len(), 0, "a session was opened for a guest that is off");
    assert!(
        !login_page(false).contains("Continue as guest"),
        "the button is drawn but does nothing"
    );
}

#[test]
fn the_guest_button_appears_only_when_it_works() {
    assert!(login_page(true).contains("Continue as guest"), "the button was not drawn");
}

// ---------------------------------------------------------------------------
// The library
// ---------------------------------------------------------------------------

fn game(name: &str, fs_name: &str, size_bytes: i64) -> Game {
    Game {
        system: "nes".into(),
        platform_slug: "nes".into(),
        name: name.into(),
        fs_name: fs_name.into(),
        rel_dir: String::new(),
        size_bytes,
        summary: None,
        path: format!("/lib/ROMs/nes/{fs_name}"),
    }
}

fn games() -> Vec<Game> {
    vec![game("Alpha", "Alpha (USA).zip", 11), game("Beta", "Beta (USA).zip", 4)]
}

fn inventory() -> Table<HashKey, FileHashes> {
    let mut t = Table::new();
    t.insert(
        HashKey { system: "nes".into(), path: "Alpha (USA).zip".into() },
        FileHashes { md5: Some("deadbeef".into()), sha1: Some("cafe".into()), crc: None },
    );
    t
}

#[test]
fn the_scan_is_what_the_api_reports() {
    let p = roms(&games(), &Table::new(), DEFAULT_LIMIT, 0);
    assert_eq!(p.total, 2);
    assert_eq!(p.items.len(), 2);
    assert_eq!(p.items[0].name.as_deref(), Some("Alpha"));
    assert_eq!(p.items[0].fs_size_bytes, Some(11));
}

#[test]
fn a_page_is_so_many_after_so_many() {
    let p = roms(&games(), &Table::new(), 1, 1);
    assert_eq!(p.total, 2);
    assert_eq!(p.items.len(), 1);
    assert_eq!(p.items[0].id, 2);
    assert!(roms(&games(), &Table::new(), 5, 2).items.is_empty());
}

#[test]
fn identifiers_is_not_swallowed_by_the_id_route() {
    assert_eq!(rom_identifiers(2), vec![1, 2]);
}

#[test]
fn ids_are_one_based_and_out_of_range_is_404() {
    let none = Table::new();
    assert_eq!(rom_by_id(&games(), &none, 1).unwrap().fs_name, "Alpha (USA).zip");
    // Zero is what a missing field deserializes to; it must not resolve.
    assert!(rom_by_id(&games(), &none, 0).is_none());
    assert!(rom_by_id(&games(), &none, 99).is_none());
    assert!(rom_by_id(&games(), &none, -1).is_none());
    assert_eq!(place_of(2, 2), Some(1));
}

#[test]
fn skip_hash_tracks_whether_an_inventory_was_loaded() {
    assert!(skip_hash(&Table::new()), "no inventory -> true");
    assert!(!skip_hash(&inventory()), "inventory loaded -> false");
}

#[test]
fn a_hash_is_served_when_the_inventory_has_one() {
    let p = roms(&games(), &inventory(), DEFAULT_LIMIT, 0);
    let alpha = p.items.iter().find(|i| i.fs_name == "Alpha (USA).zip").unwrap();
    assert_eq!(alpha.md5_hash.as_deref(), Some("deadbeef"));
    assert_eq!(alpha.sha1_hash.as_deref(), Some("cafe"));
    // A game the inventory has not seen gets no hash rather than a wrong one.
    let beta = p.items.iter().find(|i| i.fs_name == "Beta (USA).zip").unwrap();
    assert!(beta.md5_hash.is_none(), "unknown file must publish no hash");
}

#[test]
fn platform_counts_come_from_the_scan() {
    let all = platforms(&games());
    let nes = all.iter().find(|p| p.fs_slug == "nes").unwrap();
    assert_eq!(nes.rom_count, 2);
}

#[test]
fn a_game_is_found_by_its_file_and_by_its_title() {
    let mut all = games();
    all[0].name = "Alpha: The Game".into();
    let names = moose_rack_core::collections::name_table(&named(&all));
    let at = |n: &str| {
        names
            .get(&moose_rack_core::collections::NameKey {
                platform: "nes".into(),
                name: n.into(),
            })
            .copied()
    };
    assert_eq!(at("alpha (usa)"), Some(1));
    assert_eq!(at("alpha: the game"), Some(1));
    assert_eq!(at("beta"), Some(2));
    assert_eq!(at("gamma"), None);
}

fn bios() -> Vec<FoundFile> {
    vec![
        FoundFile { path: "/lib/bios/mame/neogeo.zip".into(), bytes: Some(b"neogeo".to_vec()) },
        FoundFile { path: "/lib/bios/scph1001.bin".into(), bytes: Some(b"psx-bios".to_vec()) },
    ]
}

#[test]
fn firmware_is_flattened_but_remembers_where_it_came_from() {
    let all = scan_firmware("/lib/bios", &bios());
    assert_eq!(all.len(), 2);
    let nested = all.iter().find(|f| f.file_name == "neogeo.zip").unwrap();
    assert_eq!(nested.file_path.as_deref(), Some("mame"), "sub-path is reported");
    let top = all.iter().find(|f| f.file_name == "scph1001.bin").unwrap();
    assert!(top.file_path.is_none(), "a top-level file has no sub-path");
}

#[test]
fn firmware_carries_hashes_and_serves_its_bytes() {
    let all = scan_firmware("/lib/bios", &bios());
    let f = all.iter().find(|f| f.file_name == "scph1001.bin").unwrap();
    assert_eq!(f.md5_hash.as_deref(), Some("3400cfcc9a4e5a91adae128ed69ffab3"));
    assert_eq!(f.sha1_hash.as_deref(), Some("5be58ba07567dcbe81b3a1c4e5af279a2e1d3dcd"));
    assert_eq!(f.file_size_bytes, 8);
    assert!(f.is_verified);
    assert_eq!(firmware_path(&all, f.id).as_deref(), Some("/lib/bios/scph1001.bin"));
}

#[test]
fn an_unknown_firmware_id_is_404() {
    assert_eq!(firmware_path(&scan_firmware("/lib/bios", &bios()), 999), None);
}

#[test]
fn the_root_is_a_page_not_a_404() {
    let body = index("1.0", &games(), 2, &Vec::new(), 0);
    assert!(body.contains("Moose Rack"), "should name itself");
    assert!(body.contains("/api/heartbeat"), "should point at the API");
    assert!(body.contains("nes"), "should list what it holds");
}

// ---------------------------------------------------------------------------
// Saves over the wire
// ---------------------------------------------------------------------------

/// The service's saves, with the files beside it in memory.
struct Server {
    store: SaveStore,
    files: BTreeMap<(i64, String), Vec<u8>>,
    data: Persisted,
}

impl Server {
    fn new() -> Server {
        Server {
            store: SaveStore::new("/saves"),
            files: BTreeMap::new(),
            data: Persisted::default(),
        }
    }

    fn list(&self, rom: Option<i64>) -> Vec<ServerSave> {
        let mut dirs: BTreeMap<i64, Vec<FoundSave>> = BTreeMap::new();
        for ((r, name), bytes) in &self.files {
            if rom.is_none() || rom == Some(*r) {
                dirs.entry(*r).or_default().push(FoundSave {
                    name: name.clone(),
                    bytes: bytes.clone(),
                    modified: None,
                });
            }
        }
        let found =
            dirs.into_iter().map(|(r, files)| FoundDir { name: r.to_string(), files }).collect();
        self.store.list(&found, &Vec::new())
    }

    fn post(
        &mut self,
        device: &str,
        rom: i64,
        name: &str,
        bytes: &[u8],
        overwrite: bool,
    ) -> Result<i64, NotTaken> {
        self.data.upload(device, rom, name, &self.list(Some(rom)), overwrite)?;
        self.files.insert((rom, name.to_string()), bytes.to_vec());
        let all = self.list(Some(rom));
        let w = self.store.written(&all, name).unwrap();
        self.data.taken(device, w);
        Ok(w.id)
    }

    fn content(&self, id: i64) -> Option<&[u8]> {
        let path = self.store.read(&self.list(None), id)?;
        self.files
            .iter()
            .find(|((r, name), _)| self.store.path(*r, name) == path)
            .map(|(_, b)| b.as_slice())
    }
}

#[test]
fn registering_the_same_device_twice_returns_one_id() {
    let mut data = Persisted::default();
    let (first, _) = data.register_device(Some("flip"), None);
    let (second, _) = data.register_device(Some("flip"), None);
    assert_eq!(first, second, "same name must not mint a second device");
    let (third, _) = data.register_device(Some("mac"), None);
    assert_ne!(first, third, "different names are different devices");
}

#[test]
fn a_device_without_a_name_is_called_after_its_host() {
    let mut data = Persisted::default();
    assert_eq!(data.register_device(None, Some("flip.lan")).1, "flip.lan");
    assert_eq!(data.register_device(Some("mine"), Some("flip.lan")).1, "mine");
}

#[test]
fn an_uploaded_save_can_be_listed_and_read_back() {
    let mut srv = Server::new();
    let id = srv.post("dev", 1, "a.srm", b"save-bytes", false).unwrap();
    assert_eq!(id, save_id(1, "a.srm"));
    assert_eq!(srv.list(Some(1)).len(), 1);
    assert_eq!(srv.content(id).unwrap(), b"save-bytes");
}

#[test]
fn a_second_device_overwriting_blind_is_refused() {
    let mut srv = Server::new();
    let id = srv.post("alice", 1, "a.srm", b"from-alice", false).unwrap();
    // Bob never agreed on alice's bytes, so his upload must not land.
    assert!(matches!(
        srv.post("bob", 1, "a.srm", b"from-bob", false),
        Err(NotTaken::Conflict(_))
    ));
    // and the bytes are untouched
    assert_eq!(srv.content(id).unwrap(), b"from-alice");
}

#[test]
fn overwrite_true_lands_after_a_conflict() {
    let mut srv = Server::new();
    let id = srv.post("alice", 1, "a.srm", b"from-alice", false).unwrap();
    assert!(srv.post("bob", 1, "a.srm", b"from-bob", true).is_ok());
    assert_eq!(srv.content(id).unwrap(), b"from-bob");
}

#[test]
fn a_device_may_go_on_from_what_it_agreed_on() {
    let mut srv = Server::new();
    srv.post("alice", 1, "a.srm", b"one", false).unwrap();
    srv.post("alice", 1, "a.srm", b"two", false).unwrap();
    assert!(matches!(srv.post("alice", 1, "", b"x", false), Err(NotTaken::NoFile)));
}

#[test]
fn uploading_records_agreement_so_the_next_sync_is_quiet() {
    let mut srv = Server::new();
    srv.post("alice", 1, "a.srm", b"bytes", false).unwrap();
    let all = srv.list(None);
    let client = ClientSaveState {
        rom_id: 1,
        file_name: "a.srm".into(),
        slot: None,
        emulator: None,
        content_hash: all[0].content_hash.clone().unwrap(),
        updated_at: "now".into(),
        file_size_bytes: 5,
    };
    let plan = negotiate("alice", &vec![client], &all, &srv.data.seen_map());
    assert_eq!(plan.total_no_op, 1, "same bytes both sides");
    assert_eq!(plan.total_conflict, 0);
}

#[test]
fn negotiate_tells_a_new_device_to_download() {
    let mut srv = Server::new();
    srv.post("alice", 1, "a.srm", b"bytes", false).unwrap();
    let plan = negotiate("flip", &Vec::new(), &srv.list(None), &srv.data.seen_map());
    assert_eq!(plan.total_download, 1);
    assert_eq!(plan.operations[0].action, "download");
}

#[test]
fn an_agreement_kept_as_text_is_read_again() {
    let mut data = Persisted::default();
    data.agree("alice", -7, "a.srm", "h");
    assert_eq!(data.agreed("alice", -7, "a.srm").as_deref(), Some("h"));
    assert_eq!(data.agreed("bob", -7, "a.srm"), None);
    assert_eq!(key_for("alice", -7, "a.srm"), "alice\0-7\0a.srm");
    let seen = data.seen_map();
    assert_eq!(
        seen.get(&moose_rack_core::saves::key("alice", -7, "a.srm")).map(String::as_str),
        Some("h")
    );
}

#[test]
fn an_uploaded_state_cannot_escape_its_directory() {
    for name in ["../../escape.state", "/etc/passwd", ".hidden", "", ".."] {
        if let Ok(got) = state_name(name) {
            assert!(!got.contains('/'), "{name} was stored as {got}");
            assert!(!got.starts_with('.'), "{name} was stored as {got}");
        }
    }
    assert_eq!(state_name("../../escape.state").unwrap(), "escape.state");
    assert!(state_name(".hidden").is_err());
}

#[test]
fn the_config_supplies_what_no_flag_does() {
    let some = |s: &str| Some(s.to_string());
    assert_eq!(pick(&some("a"), &some("b")), some("a"));
    assert_eq!(pick(&None, &some("b")), some("b"));
    assert_eq!(root_of(&None, &some("/lib/ES-DE")).unwrap(), "/lib/ES-DE");
    assert!(root_of(&None, &None).unwrap_err().full().contains("nothing to serve"));
    assert_eq!(below_root(&None, "/lib/ES-DE", "saves"), "/lib/ES-DE/saves");
    assert_eq!(below_root(&some("/x"), "/lib/ES-DE", "saves"), "/x");
}

// ---------------------------------------------------------------------------
// The web
// ---------------------------------------------------------------------------

#[test]
fn the_shim_defines_what_the_ui_reads() {
    assert!(SHIM.contains("window.__TAURI__"));
    assert!(SHIM.contains("invoke:"));
    assert!(SHIM.contains("convertFileSrc:"));
    assert!(SHIM.contains("event:"), "attract-screen.js calls event.listen at startup");
    assert!(SHIM.contains("BroadcastChannel"), "cross-window events are stubbed out");
}

#[test]
fn the_shim_opens_windows_itself() {
    assert!(SHIM.contains(r#"cmd === "open_settings""#));
    assert!(SHIM.contains("/settings.html"));
    assert!(SHIM.contains(r#"cmd === "open_link""#));
}

fn refused(cmd: &str) -> String {
    match dispatch(cmd) {
        Answer::Refused(why) => why,
        Answer::Backend(ps) => panic!("{cmd} takes {ps:?}"),
    }
}

#[test]
fn machine_local_commands_say_so_and_unknown_ones_say_that() {
    assert_eq!(refused("launch_rom"), "launch_rom is not available on the server");
    assert!(refused("launch_rom").contains("is not available on the server"));
    assert!(refused("no_such_thing").contains("unknown command"));
}

#[test]
fn no_command_is_implemented_here() {
    // A command is either handed to the backend with what it takes, or refused.
    for cmd in ["roms", "platforms", "status", "search", "launch_rom", "no_such_thing"] {
        match (dispatch(cmd), parameters_of(cmd)) {
            (Answer::Backend(a), Some(b)) => assert_eq!(a, b, "arm does not delegate: {cmd}"),
            (Answer::Refused(_), None) => {}
            other => panic!("{cmd}: {other:?}"),
        }
    }
    assert_eq!(parameters_of("roms").unwrap(), ["platform", "list"]);
    assert!(parameters_of("platforms").unwrap().is_empty());
}

#[test]
fn arguments_are_renamed_the_way_tauri_renames_them() {
    assert_eq!(snake("localOnly"), "local_only");
    assert_eq!(snake("id"), "id");
    assert_eq!(snake("fileName"), "file_name");
    let n = normalise(vec![
        ("localOnly".to_string(), "true"),
        ("ids".to_string(), "[1,2]"),
        // Values are left alone: a ListRef has its own field names.
        ("list".to_string(), "{\"someKey\":1}"),
    ]);
    assert_eq!(n[0], ("local_only".to_string(), "true"));
    assert_eq!(n[1], ("ids".to_string(), "[1,2]"));
    assert_eq!(n[2], ("list".to_string(), "{\"someKey\":1}"));
    assert_eq!(bad_argument("id", "missing"), "id: missing");
}

#[test]
fn media_is_confined_to_its_roots() {
    let roots = media_roots("/tmp/media", "/tmp/themes", None, None);
    assert_eq!(roots, ["/tmp/media", "/tmp/themes"]);
    // What a path leads to, once its links and dots are followed.
    assert!(resolve_media(&roots, Some("/tmp/media/snes/a.png"), true).is_some());
    // Outside, plainly.
    assert!(resolve_media(&roots, Some("/tmp/secret"), true).is_none());
    // Outside, by a name that begins like the root.
    assert!(resolve_media(&roots, Some("/tmp/media-secret/a.png"), true).is_none());
    // A directory is not media.
    assert!(resolve_media(&roots, Some("/tmp/media/snes"), false).is_none());
    assert!(resolve_media(&roots, None, false).is_none());
}

#[test]
fn a_page_loads_the_shim_first() {
    let p = page("/index.html", Some("<html><head><title>x</title></head></html>")).unwrap();
    let shim = p.find("__shim.js").unwrap();
    assert!(shim < p.find("<title>").unwrap(), "{p}");
    assert_eq!(page("/x.html", None).unwrap_err(), "no /x.html");
}

#[test]
fn the_last_part_under_the_field_is_the_file() {
    let part = |field: &str, name: Option<&str>, bytes: &[u8]| Part {
        field: Some(field.into()),
        file_name: name.map(str::to_string),
        bytes: bytes.to_vec(),
    };
    let parts = vec![
        part("saveFile", Some("first.srm"), b"one"),
        part("saveFile", Some("second.srm"), b"two"),
        part("screenshot", Some("x.png"), b"png"),
        Part { field: None, file_name: None, bytes: b"stray".to_vec() },
    ];
    assert_eq!(file_part(&parts, "saveFile", "save.srm"), ("second.srm".into(), b"two".to_vec()));
    // A file with no name goes by the one that is given for it.
    let unnamed = vec![part("saveFile", None, b"three")];
    assert_eq!(file_part(&unnamed, "saveFile", "save.srm"), ("save.srm".into(), b"three".to_vec()));
    // Nothing under the field is nothing, whatever else was sent.
    assert_eq!(file_part(&parts, "stateFile", ""), (String::new(), vec![]));
    assert!(matches!(upload_save("", None, &None, true), Err(NotTaken::NoFile)));
}

#[test]
fn a_session_goes_by_the_bytes_it_was_given() {
    let mut g = guarded(locked());
    let s = login_as(&mut g, &with_token("owner-secret"), Some(vec![0, 255, 16])).unwrap();
    assert_eq!(
        s.cookie,
        "moose_session=AP8Q; Path=/; HttpOnly; SameSite=Lax; Max-Age=2592000"
    );
    assert_eq!(s.name, "owner");
    assert!(matches!(
        with_cookie(&g, "/api/roms", "moose_session=AP8Q"),
        Admission::Admitted(_)
    ));
    // Without chance nobody gets in, and a stranger is refused whatever the bytes.
    assert_eq!(
        login_as(&mut g, &with_token("owner-secret"), None).err(),
        Some(NotIn::NoChance)
    );
    assert_eq!(
        login_as(&mut g, &with_token("guess"), Some(vec![1, 2, 3])).err(),
        Some(NotIn::Refused)
    );
}

#[test]
fn every_game_is_counted_once_and_paged_once() {
    let mut all = games();
    for (i, slug) in ["snes", "gba", "snes", "nes"].iter().enumerate() {
        let mut g = game("Game", &format!("Game {i}.zip"), 1);
        g.platform_slug = slug.to_string();
        all.push(g);
    }
    let found = platforms(&all);
    let slugs: Vec<&str> = found.iter().map(|p| p.slug.as_str()).collect();
    assert_eq!(slugs, ["gba", "nes", "snes"]);
    assert_eq!(found.iter().map(|p| p.rom_count).sum::<i64>(), all.len() as i64);
    // Pages of two, one after the other, are the whole.
    let mut ids = Vec::new();
    for offset in [0, 2, 4, 6] {
        ids.extend(roms(&all, &Table::new(), 2, offset).items.iter().map(|r| r.id));
    }
    assert_eq!(ids, rom_identifiers(all.len()));
}

#[test]
fn save_states_upload_list_and_download() {
    let sent = vec![Part {
        field: Some("stateFile".into()),
        file_name: Some("Game.state1".into()),
        bytes: b"frozen".to_vec(),
    }];
    let (name, bytes) = file_part(&sent, "stateFile", "");
    let name = state_name(&name).unwrap();
    let store = StateStore::new("/lib/saves/_states");
    assert_eq!(store.path(1, &name), "/lib/saves/_states/1/Game.state1");
    assert_eq!(store.emu_path(1, &name), "/lib/saves/_states/1/.Game.state1.emulator");
    let emulator = store.write(Some("snes9x"));
    assert_eq!(emulator.as_deref(), Some("snes9x"));

    // What is then in the directory of the game, the sidecar among it.
    let file = |name: &str, size: u64, sidecar: Option<String>| FoundState {
        name: name.into(),
        size,
        modified: None,
        sidecar,
    };
    let found = vec![FoundStates {
        name: "1".into(),
        files: vec![
            file(&name, bytes.len() as u64, emulator),
            file(".Game.state1.emulator", 6, None),
        ],
    }];
    let list = store.list(&found, &vec![]);
    assert_eq!(list.len(), 1);
    let up = &list[0];
    assert_eq!(up.rom_id, 1);
    assert_eq!(up.file_name, "Game.state1");
    assert_eq!(up.emulator.as_deref(), Some("snes9x"));
    assert_eq!(up.file_size_bytes, 6);

    // Its id leads back to the bytes.
    assert_eq!(store.read(&list, up.id).as_deref(), Some("/lib/saves/_states/1/Game.state1"));
    assert_eq!(bytes, b"frozen");

    // Another game's states are not this game's.
    let other = vec![FoundStates { name: "2".into(), files: vec![] }];
    assert!(store.list(&other, &vec![]).is_empty());
}
