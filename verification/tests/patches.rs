use std::collections::BTreeMap;

use moose_rack_core::blocks::{
    clear_block, effective, in_force, key_of, keys_of, read_block, set_block, value_of,
};
use moose_rack_core::disk::{Change, Disk, Found};
use moose_rack_core::failure::Failure;
use moose_rack_core::patch::{
    mount_point_of, same_text, temp_name, way_through, Choice, Form, NamedIn, Patch, Paths, Progress,
    State, Step, Through,
};

/// A card in memory: files are read from it and changes made to it.
#[derive(Default)]
struct Card {
    files: BTreeMap<String, Vec<u8>>,
}

impl Card {
    fn with(path: &str, bytes: &[u8]) -> Card {
        let mut card = Card::default();
        card.write(path, bytes);
        card
    }

    fn write(&mut self, path: &str, bytes: &[u8]) {
        self.files.insert(path.to_string(), bytes.to_vec());
    }

    fn read(&self, path: &str) -> Option<&[u8]> {
        self.files.get(path).map(|b| b.as_slice())
    }

    fn text(&self, path: &str) -> String {
        String::from_utf8(self.files[path].clone()).unwrap()
    }

    fn disk(&self) -> Disk {
        Disk {
            files: self
                .files
                .iter()
                .map(|(p, b)| (p.clone(), Found::Bytes(b.clone())))
                .collect(),
        }
    }

    fn make(&mut self, change: Change) {
        match change {
            Change::Nothing => {}
            Change::Write { path, bytes, keep } => {
                if let Some(keep) = keep {
                    let old = self.files[&path].clone();
                    self.files.insert(keep, old);
                }
                self.files.insert(path, bytes);
            }
            Change::Remove { path } => {
                self.files.remove(&path);
            }
            Change::PutBack { path, backup } => {
                let old = self.files.remove(&backup).unwrap();
                self.files.insert(path, old);
            }
        }
    }

    fn apply(&mut self, step: &Step) -> Result<(), Failure> {
        let change = step.apply(&self.disk())?;
        self.make(change);
        Ok(())
    }

    fn satisfied(&self, step: &Step) -> bool {
        step.satisfied(&self.disk())
    }

    fn run(&mut self, patch: &Patch, index: usize) -> Result<(), Failure> {
        let mut done = 0;
        let mut last = Ok(());
        loop {
            match patch.apply(index, done, last)? {
                Progress::Finished => return Ok(()),
                Progress::Do(step) => {
                    last = self.apply(step);
                    if last.is_ok() {
                        done += 1;
                    }
                }
            }
        }
    }
}

/// As the patches are built: the backup lives outside the directory the file is
/// in.
fn placed(root: &str, path: &str, bytes: Option<&'static [u8]>) -> Step {
    let backup = Paths::new(root).backup_for(path);
    Step::Place { path: path.to_string(), bytes, backup }
}

/// A block in knulli.conf.
fn conf_block(file: &str, id: &str, body: Option<&str>) -> Step {
    Step::Block {
        file: file.to_string(),
        id: id.into(),
        body: body.map(str::to_string),
        form: Form::Settings,
    }
}

const CONF: &str = "/card/knulli.conf";

#[test]
fn the_boot_hook_only_reads_from_partitions_it_can_see() {
    let paths = Paths::new("/");
    for needed_at_boot in
        [paths.blank_logo(), paths.boot_custom(), paths.gpu_choice(), paths.gpu_blob("wayland")]
    {
        assert!(
            needed_at_boot.starts_with("/boot"),
            "{} is read by the S00 hook and must be on /boot",
            needed_at_boot
        );
    }
}

#[test]
fn a_block_round_trips() {
    let text = "keep=1\n";
    let with = set_block(text, "hotkeys", "a=1\nb=2").unwrap();
    assert_eq!(read_block(&with, "hotkeys").as_deref(), Some("a=1\nb=2"));
    assert!(with.contains("keep=1"), "the rest of the file must survive");
    let without = clear_block(&with, "hotkeys").unwrap();
    assert_eq!(read_block(&without, "hotkeys"), None);
    assert!(without.contains("keep=1"));
}

/// The lines a settings reader would actually act on: not blank, not
/// commented out.
fn live(text: &str) -> Vec<&str> {
    text.lines().map(str::trim).filter(|l| !l.is_empty() && !l.starts_with('#')).collect()
}

#[test]
fn a_key_already_in_the_file_is_the_one_that_wins() {
    let before = "system.batterysaver.mode=dim\n\
                  system.batterysaver.extendedmode=suspend\n\
                  system.power.led=1\n";
    let after = set_block(before, "power", "system.batterysaver.extendedmode=none\n").unwrap();

    // The old line is no longer a setting…
    let set: Vec<&str> = live(&after).into_iter().filter(|l| l.contains("extendedmode")).collect();
    assert_eq!(set, vec!["system.batterysaver.extendedmode=none"]);
    // …and the keys we did not touch are untouched.
    assert!(live(&after).contains(&"system.batterysaver.mode=dim"));
    assert!(live(&after).contains(&"system.power.led=1"));
}

#[test]
fn turning_it_off_puts_the_original_line_back_exactly() {
    let before = "system.batterysaver.extendedmode=suspend\n\
                  system.batterysaver.chargingbypass=0\n";
    let on = set_block(before, "power", "system.batterysaver.extendedmode=none\n").unwrap();
    let off = clear_block(&on, "power").unwrap();
    assert_eq!(off, before, "did not come back to what it was");
}

#[test]
fn hiding_survives_being_applied_over_and_over() {
    let before = "system.batterysaver.extendedmode=suspend\n";
    let mut text = before.to_owned();
    for _ in 0..3 {
        text = set_block(&text, "power", "system.batterysaver.extendedmode=none\n").unwrap();
    }
    assert_eq!(text.matches("hid:").count(), 1, "stacked its own markers");
    assert_eq!(clear_block(&text, "power").unwrap(), before);
}

#[test]
fn a_hidden_line_is_not_mistaken_for_the_blocks_own_marker() {
    let text = set_block(
        "system.batterysaver.extendedmode=suspend\n",
        "power",
        "system.batterysaver.extendedmode=none\n",
    )
    .unwrap();
    assert_eq!(
        read_block(&text, "power").as_deref(),
        Some("system.batterysaver.extendedmode=none")
    );
}

#[test]
fn one_block_does_not_disturb_what_another_hid() {
    let before = "system.batterysaver.extendedmode=suspend\n\
                  system.batterysaver.chargingbypass=0\n";
    let a = set_block(before, "power", "system.batterysaver.extendedmode=none\n").unwrap();
    let b = set_block(&a, "charge", "system.batterysaver.chargingbypass=1\n").unwrap();
    // Taking one off leaves the other's work standing.
    let off = clear_block(&b, "power").unwrap();
    assert!(off.contains("system.batterysaver.extendedmode=suspend"), "did not restore");
    let set: Vec<&str> = live(&off).into_iter().filter(|l| l.contains("chargingbypass")).collect();
    assert_eq!(set, vec!["system.batterysaver.chargingbypass=1"], "clobbered the other");
}

#[test]
fn a_block_that_sets_nothing_hides_nothing() {
    let before = "system.power.led=1\n";
    let after = set_block(before, "note", "# just a comment\n\n").unwrap();
    assert!(live(&after).contains(&"system.power.led=1"), "hid a key it never set");
}

#[test]
fn applying_twice_does_not_stack_blocks() {
    let once = set_block("keep=1\n", "shaders", "x=1").unwrap();
    let twice = set_block(&once, "shaders", "x=1").unwrap();
    assert_eq!(twice.matches("## moose-patch: shaders\n").count(), 1);
    assert_eq!(once, twice, "a second apply should change nothing");
}

#[test]
fn changing_a_block_replaces_it_rather_than_appending() {
    let once = set_block("keep=1\n", "shaders", "set=a").unwrap();
    let twice = set_block(&once, "shaders", "set=b").unwrap();
    assert_eq!(read_block(&twice, "shaders").as_deref(), Some("set=b"));
    assert!(!twice.contains("set=a"));
}

#[test]
fn clearing_a_block_that_was_never_there_is_harmless() {
    assert_eq!(clear_block("keep=1\n", "nope").unwrap(), "keep=1\n");
}

#[test]
fn a_config_that_cannot_be_read_is_left_as_it_is() {
    let before = b"wifi.ssid=home\ncaf\xe9=1\ngba=mgba\n".to_vec();
    let mut card = Card::with(CONF, &before);

    let on = conf_block(CONF, "power", Some("a=1"));
    let err = card.apply(&on).expect_err("applied over a file it could not read");
    assert!(err.full().contains("UTF-8"), "{}", err.full());
    assert_eq!(card.read(CONF), Some(before.as_slice()), "the file was written");

    // And it reads as at no option, rather than as "off".
    let off = conf_block(CONF, "power", None);
    assert!(!card.satisfied(&off));
    assert!(!card.satisfied(&on));
}

#[test]
fn a_missing_seed_writes_nothing() {
    let mut card = Card::default();
    let file = "/card/userdata/multimedia_keys.conf";
    let step = Step::Block {
        file: file.to_string(),
        id: "hotkey".into(),
        body: Some("BTN_TR2+BTN_TL2 1 /bin/true".into()),
        form: Form::Seeded("/card/etc/multimedia_keys.conf".to_string()),
    };
    assert!(card.apply(&step).is_err());
    assert!(card.read(file).is_none(), "created the file with only our lines in it");
}

#[test]
fn a_seeded_file_is_the_one_it_replaces_and_the_block() {
    let seed = "/card/etc/multimedia_keys.conf";
    let file = "/card/userdata/multimedia_keys.conf";
    let mut card = Card::with(seed, b"KEY_POWER 1 /bin/off\n");
    let step = Step::Block {
        file: file.to_string(),
        id: "hotkey".into(),
        body: Some("BTN_TR2 1 /bin/true".into()),
        form: Form::Seeded(seed.to_string()),
    };
    card.apply(&step).unwrap();
    assert!(card.text(file).starts_with("KEY_POWER 1 /bin/off\n"));
    assert!(card.satisfied(&step));
    // It no longer matches once what it replaces has moved on.
    card.write(seed, b"KEY_POWER 1 /bin/off\nKEY_LID 1 /bin/lid\n");
    assert!(!card.satisfied(&step));
    card.apply(&step).unwrap();
    assert!(card.satisfied(&step));
    assert!(card.text(file).contains("KEY_LID"));
}

#[test]
fn a_block_with_no_end_marker_is_refused_not_cut_to_the_end_of_the_file() {
    let text = "keep=1\n## moose-patch: power\nsystem.batterysaver.mode=dim\ngba=mgba\n";
    assert!(clear_block(text, "power").is_err());
    assert!(set_block(text, "power", "x=1").is_err());

    let mut card = Card::with(CONF, text.as_bytes());
    let off = conf_block(CONF, "power", None);
    assert!(card.apply(&off).is_err());
    assert_eq!(card.text(CONF), text, "the lines below it went");
    assert!(!card.satisfied(&off), "a broken block is not an absent one");
}

#[test]
fn a_write_replaces_the_file_rather_than_rewriting_it_in_place() {
    let mut card = Card::with(CONF, b"keep=1\n");
    match conf_block(CONF, "x", Some("a=1")).apply(&card.disk()).unwrap() {
        Change::Write { path, bytes, keep } => {
            assert_eq!(path, CONF);
            assert!(keep.is_none());
            assert!(String::from_utf8(bytes.clone()).unwrap().contains("a=1"));
            card.write(&path, &bytes);
        }
        other => panic!("{other:?}"),
    }
    assert_eq!(card.files.len(), 1, "a temporary file was left behind");
    // The bytes are written beside the file under a name nothing lists.
    assert_eq!(temp_name("knulli.conf"), ".knulli.conf.moose-tmp");
}

#[test]
fn a_backup_that_fails_stops_the_write() {
    // The copy is part of the change: without it nothing may be written.
    let path = "/card/es_input.cfg";
    let card = Card::with(path, b"KNULLI's own");
    match placed("/card", path, Some(b"ours")).apply(&card.disk()).unwrap() {
        Change::Write { keep, .. } => {
            assert_eq!(keep, Some(Paths::new("/card").backup_for(path)));
        }
        other => panic!("{other:?}"),
    }
    // And what cannot be read cannot be kept.
    let disk = Disk {
        files: vec![(
            path.to_string(),
            Found::Unreadable { there: true, why: "permission denied".to_string() },
        )],
    };
    let step = conf_block(path, "x", Some("a=1"));
    assert!(step.apply(&disk).is_err());
}

#[test]
fn a_block_step_reads_its_own_state() {
    let mut card = Card::with(CONF, b"keep=1\n");
    let on = conf_block(CONF, "hotkeys", Some("a=1"));
    let off = conf_block(CONF, "hotkeys", None);

    assert!(card.satisfied(&off), "no block means off is already true");
    assert!(!card.satisfied(&on));
    card.apply(&on).unwrap();
    assert!(card.satisfied(&on));
    assert!(!card.satisfied(&off));
    card.apply(&off).unwrap();
    assert!(card.satisfied(&off), "off has to be able to undo on");
}

#[test]
fn the_reader_takes_the_first_live_line() {
    let text = "# system.power.led=9\n\
                ## moose-patch: power hid: system.power.led=8\n\
                system.power.led = 1\n\
                system.power.led=2\n";
    assert_eq!(effective(text, "system.power.led").as_deref(), Some("1"));
    assert_eq!(effective(text, "system.lid"), None);
}

#[test]
fn a_block_is_on_only_while_the_reader_would_find_its_values() {
    let mut card = Card::with(CONF, b"system.batterysaver.extendedmode=suspend\ngba=mgba\n");
    let on = conf_block(CONF, "power", Some("system.batterysaver.extendedmode=none"));
    let off = conf_block(CONF, "power", None);
    card.apply(&on).unwrap();
    assert!(card.satisfied(&on));

    let text = card.text(CONF);
    card.write(CONF, format!("system.batterysaver.extendedmode=suspend\n{text}").as_bytes());
    assert!(!card.satisfied(&on), "the reader finds =suspend first");
    assert!(!card.satisfied(&off), "and the block is still there, so it is not off either");

    // A script is not a settings file: there the block is the change.
    let script = "/card/custom.sh";
    let step = Step::Block {
        file: script.to_string(),
        id: "wifi".into(),
        body: Some("X=1".into()),
        form: Form::Script,
    };
    card.apply(&step).unwrap();
    let text = card.text(script);
    card.write(script, format!("X=2\n{text}").as_bytes());
    assert!(card.satisfied(&step));
}

#[test]
fn placing_a_file_keeps_the_original_and_gives_it_back() {
    let path = "/card/logo.png";
    let mut card = Card::with(path, b"the original");
    let on = placed("/card", path, Some(b"ours"));
    let off = placed("/card", path, None);

    card.apply(&on).unwrap();
    assert_eq!(card.read(path).unwrap(), b"ours");
    assert!(card.satisfied(&on));

    card.apply(&off).unwrap();
    assert_eq!(
        card.read(path).unwrap(),
        b"the original",
        "reverting must restore what was there, not delete it"
    );
    assert!(
        card.read(&Paths::new("/card").backup_for(path)).is_none(),
        "and clean up after itself"
    );
}

#[test]
fn a_second_apply_does_not_overwrite_the_backup() {
    let path = "/card/logo.png";
    let mut card = Card::with(path, b"the original");
    let on = placed("/card", path, Some(b"ours"));
    card.apply(&on).unwrap();
    card.apply(&on).unwrap();
    card.apply(&placed("/card", path, None)).unwrap();
    assert_eq!(card.read(path).unwrap(), b"the original");
}

#[test]
fn a_backup_never_lands_in_the_directory_it_came_from() {
    let managed = "/card/userdata/shaders/moose/";
    let preset = "/card/userdata/shaders/moose/1-shimmerless.glslp";
    let mut card = Card::with(preset, b"the old one");
    card.apply(&placed("/card", preset, Some(b"ours"))).unwrap();

    let left: Vec<String> =
        card.files.keys().filter_map(|k| k.strip_prefix(managed)).map(str::to_string).collect();
    assert_eq!(left, vec!["1-shimmerless.glslp"], "stray files: {left:?}");

    // And the original is still recoverable from wherever it went.
    card.apply(&placed("/card", preset, None)).unwrap();
    assert_eq!(card.read(preset).unwrap(), b"the old one");
}

#[test]
fn taking_a_patch_off_goes_through_the_same_door_as_putting_it_on() {
    let path = "/card/marker";
    let mut card = Card::with(path, b"wayland");
    card.apply(&placed("/card", path, None)).unwrap();
    assert!(card.read(path).is_none());
    // Both go through the mount the path sits under.
    let table = "proc /proc proc rw 0 0\n/dev/mmcblk0p1 /boot vfat ro 0 0\n/dev/root / ext4 ro 0 0\n";
    assert_eq!(mount_point_of(table, "/boot/moose/gpu").as_deref(), Some("/boot"));
    assert_eq!(mount_point_of(table, "/usr/share/x"), None);
}

#[test]
fn a_file_we_added_is_removed_rather_than_restored() {
    let path = "/card/added.conf";
    let mut card = Card::default();
    card.apply(&placed("/card", path, Some(b"x"))).unwrap();
    assert!(card.read(path).is_some());
    card.apply(&placed("/card", path, None)).unwrap();
    assert!(card.read(path).is_none(), "nothing was there before, so nothing after");
}

fn shaders(choices: &[(&str, Option<&str>)]) -> Patch {
    Patch {
        id: "shaders",
        title: "Shaders",
        detail: "",
        choices: choices
            .iter()
            .map(|(name, body)| Choice {
                name: name.to_string(),
                steps: vec![conf_block(CONF, "shaders", *body)],
            })
            .collect(),
    }
}

#[test]
fn a_patch_reports_which_option_it_is_at() {
    let mut card = Card::with(CONF, b"keep=1\n");
    let patch = shaders(&[("off", None), ("ON", Some("set=a"))]);

    assert_eq!(patch.state(&card.disk()), State::At(0));
    card.run(&patch, 1).unwrap();
    assert_eq!(patch.state(&card.disk()), State::At(1));
    card.run(&patch, 0).unwrap();
    assert_eq!(patch.state(&card.disk()), State::At(0), "and back again");
    assert_eq!(patch.option_names(), ["off", "ON"]);
}

#[test]
fn a_hand_edited_block_reads_as_changed() {
    let edited = set_block("keep=1\n", "shaders", "set=SOMETHING ELSE").unwrap();
    let card = Card::with(CONF, edited.as_bytes());
    let patch = shaders(&[("ON", Some("set=a"))]);
    assert_eq!(patch.state(&card.disk()), State::Changed);
}

#[test]
fn an_option_that_is_not_there_is_an_error() {
    let mut card = Card::with(CONF, b"keep=1\n");
    let patch = shaders(&[("ON", Some("set=a"))]);
    assert_eq!(card.run(&patch, 4).unwrap_err().full(), "shaders has no option 4");
}

#[test]
fn a_step_that_fails_says_which_it_was() {
    let mut card = Card::with(CONF, b"\xff\n");
    let patch = shaders(&[("ON", Some("set=a"))]);
    let said = card.run(&patch, 0).unwrap_err().full();
    assert!(said.starts_with("shaders step 0: "), "{said}");
}

#[test]
fn off_never_deletes_a_file_that_is_not_ours() {
    let path = "/card/es_input.cfg";
    let cover = |on: bool| Step::Cover {
        path: path.to_string(),
        ours: b"ours",
        on,
        backup: Paths::new("/card").backup_for(path),
    };
    // Somebody's own file, with nothing of ours to put back.
    let mut card = Card::with(path, b"theirs");
    card.apply(&cover(false)).unwrap();
    assert_eq!(card.read(path).unwrap(), b"theirs");
    // Ours over theirs, and off gives theirs back.
    card.apply(&cover(true)).unwrap();
    assert_eq!(card.read(path).unwrap(), b"ours");
    assert!(card.satisfied(&cover(true)));
    card.apply(&cover(false)).unwrap();
    assert_eq!(card.read(path).unwrap(), b"theirs");
    // Ours where nothing was, and off takes it away.
    let mut bare = Card::default();
    bare.apply(&cover(true)).unwrap();
    assert_eq!(bare.read(path).unwrap(), b"ours");
    bare.apply(&cover(false)).unwrap();
    assert!(bare.read(path).is_none());
}

#[test]
fn a_shared_file_stays_while_something_names_it() {
    let path = "/card/userdata/shaders/moose.glslp";
    let shared = |want: bool| Step::Shared {
        path: path.to_string(),
        bytes: b"shader",
        want,
        named: NamedIn {
            conf: CONF.to_string(),
            key_suffix: ".shaderset",
            value_prefix: "moose",
        },
    };
    let mut card = Card::with(CONF, b"gba.shaderset=moose-lcd\n");
    card.apply(&shared(true)).unwrap();
    assert_eq!(card.read(path).unwrap(), b"shader");
    card.apply(&shared(false)).unwrap();
    assert!(card.read(path).is_some(), "a system still points at it");
    card.write(CONF, b"gba.shaderset=none\n");
    card.apply(&shared(false)).unwrap();
    assert!(card.read(path).is_none());
}

#[test]
fn what_es_holds_in_memory_is_known() {
    let paths = Paths::new("/");
    let block = |file: String| Step::Block { file, id: "x".into(), body: None, form: Form::Script };
    let patch = Patch {
        id: "p",
        title: "P",
        detail: "",
        choices: vec![
            Choice { name: "a".into(), steps: vec![block(paths.knulli_conf())] },
            Choice { name: "b".into(), steps: vec![block(paths.es_settings())] },
            Choice { name: "c".into(), steps: vec![block(paths.boot_custom())] },
        ],
    };
    assert!(patch.writes_what_es_holds(0, &paths));
    assert!(patch.writes_what_es_holds(1, &paths));
    assert!(!patch.writes_what_es_holds(2, &paths));
    assert!(!patch.writes_what_es_holds(9, &paths));
}

#[test]
fn a_line_has_a_key_and_a_value() {
    assert_eq!(key_of(" system.power.led = 1 ").as_deref(), Some("system.power.led"));
    assert_eq!(value_of(" system.power.led = 1 "), "1");
    assert_eq!(key_of("# a=1"), None);
    assert_eq!(key_of("=1"), None);
    assert_eq!(keys_of(&vec!["a=1".to_string(), "# b=2".to_string(), "c=3".to_string()]), ["a", "c"]);
    assert!(in_force("a=1\nb=2\n", "b=2"));
    assert!(!in_force("b=3\nb=2\n", "b=2"));
    assert!(same_text("a\n\n", "a"));
}

#[test]
fn a_backup_is_named_after_the_whole_path() {
    let a = Paths::new("/").backup_for("/usr/share/a.png");
    let b = Paths::new("/").backup_for("/usr/lib/a.png");
    assert_ne!(a, b);
    assert!(a.contains("usr_share_a.png"), "{a}");
}

#[test]
fn there_is_no_block_without_both_of_its_markers() {
    assert_eq!(read_block("keep=1\n## moose-patch: power end\n", "power"), None);
    assert_eq!(read_block("## moose-patch: power\na=1\n", "power"), None);
    // An end marker that ends nothing is passed over.
    let stray = "## moose-patch: power end\n## moose-patch: power\na=1\n## moose-patch: power end\n";
    assert_eq!(read_block(stray, "power").as_deref(), Some("a=1"));
}

#[test]
fn keys_a_block_does_not_set_read_as_they_did() {
    let before = "a=1\nb=2\nb=3\nc=4\n";
    let on = set_block(before, "power", "a=9\nd=5").unwrap();
    assert_eq!(effective(&on, "b").as_deref(), Some("2"));
    assert_eq!(effective(&on, "c").as_deref(), Some("4"));
    assert_eq!(effective(&on, "a").as_deref(), Some("9"));
    assert_eq!(effective(&on, "e"), None);
}

#[test]
fn clearing_restores_a_file_whatever_the_lines_of_the_block_end_in() {
    let before = "a=1\nkeep=2\n";
    let on = set_block(before, "power", "a=9\r\r\nb=1").unwrap();
    assert_ne!(on, before);
    assert_eq!(clear_block(&on, "power").unwrap(), before);
}

#[test]
fn lines_with_surplus_carriage_returns_do_not_get_in_the_way_of_a_block() {
    // One, two and three more than a line ending has.
    let text = "a=1\r\r\nb=2\r\r\r\nc=3\r\r\r\r\nd=4\n";
    let on = set_block(text, "power", "a=9\ne=5").unwrap();
    assert_eq!(read_block(&on, "power").as_deref(), Some("a=9\ne=5"));
    assert_eq!(effective(&on, "a").as_deref(), Some("9"));
    assert_eq!(effective(&on, "e").as_deref(), Some("5"));
    let off = clear_block(text, "power").unwrap();
    for key in ["b", "c", "d", "x"] {
        assert_eq!(effective(&on, key), effective(&off, key), "{key}");
    }
    // With one more, setting it again changes nothing.
    let one = "a=1\r\r\nb=2\r\r\n";
    let on = set_block(one, "power", "a=9").unwrap();
    assert_eq!(set_block(&on, "power", "a=9").unwrap(), on);
    let on = set_block(one, "power", "# nothing").unwrap();
    assert_eq!(set_block(&on, "power", "# nothing").unwrap(), on);
    assert_eq!(clear_block(&on, "power").unwrap(), clear_block(one, "power").unwrap());
}

#[test]
fn a_read_only_file_is_tried_once_more() {
    let table = "/dev/a / ext4 rw 0 0\n/dev/b /boot vfat ro 0 0\n";
    let way = |ro: bool, t: Option<&str>, path: Option<&str>| way_through(ro, t, path);
    assert!(matches!(way(false, Some(table), Some("/boot/x")), Through::Over));
    assert!(matches!(way(true, Some(table), Some("/boot/x")), Through::Opened(p) if p == "/boot"));
    assert!(matches!(way(true, Some(table), Some("/usr/x")), Through::Again));
    assert!(matches!(way(true, None, Some("/boot/x")), Through::Again));
    assert!(matches!(way(true, Some(table), None), Through::Again));
}
