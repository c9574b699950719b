use moose_rack_core::disk::{Disk, Found};
use moose_rack_core::eslist::{
    back_up, enabled_collections, es_name, settings_showing, show_collections, stale_copies,
    temp_path, CollectionFile, KEEP,
};
use moose_rack_core::gamelist::Gamelist;
use moose_rack_core::xml;

/// A block shaped like the ones actually on the handheld — tabs, scraped
/// tags, RetroAchievements hashes and all.
const REAL: &str = "<?xml version=\"1.0\"?>\n<gameList>\n\
\t<game>\n\
\t\t<path>./Avenging Spirit.gb</path>\n\
\t\t<name>Avenging Spirit</name>\n\
\t\t<desc>A ghost grabbing bodies.</desc>\n\
\t\t<image>./images/Avenging Spirit-image.png</image>\n\
\t\t<rating>0.74</rating>\n\
\t\t<favorite>true</favorite>\n\
\t\t<cheevosHash>E88EAB57AB4614966748280BF3C97F52</cheevosHash>\n\
\t</game>\n\
\t<game>\n\
\t\t<path>./Tetris.gb</path>\n\
\t\t<name>Tetris</name>\n\
\t\t<desc>Blocks.</desc>\n\
\t</game>\n\
</gameList>\n";

const AT: &str = "/userdata/roms/gb/gamelist.xml";

fn disk(path: &str, bytes: &[u8]) -> Disk {
    Disk { files: vec![(path.to_string(), Found::Bytes(bytes.to_vec()))] }
}

fn nothing() -> Disk {
    Disk { files: Vec::new() }
}

fn loaded(text: &str) -> Gamelist {
    Gamelist::load(&disk(AT, text.as_bytes()), AT).unwrap()
}

/// The text that a save would write.
fn text(list: &Gamelist) -> String {
    list.save().expect("nothing to save")
}

#[test]
fn it_reads_the_stars_that_are_there() {
    let list = loaded(REAL);
    assert_eq!(list.favorites(), ["Avenging Spirit.gb"]);
    assert_eq!(list.known().len(), 2);
}

#[test]
fn everything_scraped_survives_a_star() {
    let mut list = loaded(REAL);
    assert!(list.set_favorite("Tetris.gb", true));
    assert!(text(&list).contains("<cheevosHash>E88EAB57AB4614966748280BF3C97F52</cheevosHash>"));
    assert!(text(&list).contains("<desc>A ghost grabbing bodies.</desc>"));
    assert!(text(&list).contains("<image>./images/Avenging Spirit-image.png</image>"));
    assert_eq!(list.favorites(), ["Avenging Spirit.gb", "Tetris.gb"]);
}

#[test]
fn unstarring_takes_the_tag_out_and_leaves_no_blank_line() {
    let mut list = loaded(REAL);
    assert!(list.set_favorite("Avenging Spirit.gb", false));
    assert!(list.favorites().is_empty());
    assert!(!text(&list).contains("<favorite>"));
    assert!(!text(&list).contains("\n\n"), "left a hole where the tag was");
    // and the rest of the block is untouched
    assert!(text(&list).contains("<rating>0.74</rating>"));
    assert_eq!(text(&list), REAL.replace("\t\t<favorite>true</favorite>\n", ""));
}

#[test]
fn a_star_goes_in_at_the_indentation_of_its_neighbours() {
    let mut list = loaded(REAL);
    list.set_favorite("Tetris.gb", true);
    assert!(
        text(&list).contains("\t\t<favorite>true</favorite>\n\t</game>"),
        "not indented like the tags above it:\n{}",
        text(&list)
    );
}

#[test]
fn setting_what_is_already_set_changes_nothing() {
    let mut list = loaded(REAL);
    assert!(!list.set_favorite("Avenging Spirit.gb", true));
    assert!(!list.set_favorite("Tetris.gb", false));
    assert!(!list.changed());
    assert!(list.save().is_none());
}

#[test]
fn a_game_es_never_scraped_still_gets_starred() {
    let mut list = loaded(REAL);
    assert!(list.set_favorite("Kirby's Dream Land.gb", true));
    assert!(list.favorites().contains(&"Kirby's Dream Land.gb".to_string()));
    assert!(text(&list).contains("<name>Kirby's Dream Land</name>"));
    assert!(text(&list).ends_with("</gameList>\n"), "block went outside the list");
}

#[test]
fn a_name_with_an_ampersand_does_not_break_the_file() {
    let mut list = loaded(REAL);
    list.set_favorite("Tom & Jerry.gb", true);
    assert!(text(&list).contains("./Tom &amp; Jerry.gb"));
    // and it reads back as it went in
    assert!(list.favorites().contains(&"Tom & Jerry.gb".to_string()));
}

#[test]
fn a_system_with_no_gamelist_at_all_can_still_be_starred() {
    let mut list = Gamelist::load_or_empty(&nothing(), AT).unwrap();
    assert!(list.set_favorite("Super Mario Land.gb", true));
    let written = text(&list);
    assert_eq!(
        Gamelist::load(&disk(AT, written.as_bytes()), AT).unwrap().favorites(),
        ["Super Mario Land.gb"]
    );
}

#[test]
fn a_save_lands_whole_or_not_at_all() {
    let mut list = loaded(REAL);
    list.set_favorite("Tetris.gb", true);
    let written = text(&list);
    // The bytes go beside the file first, and take its place after.
    assert_eq!(temp_path(AT), "/userdata/roms/gb/gamelist.xml.moose");
    assert_eq!(Gamelist::load(&disk(AT, written.as_bytes()), AT).unwrap().favorites().len(), 2);
}

#[test]
fn a_collection_file_is_paths_one_per_line() {
    let p = CollectionFile::file_name("Arcade Fighting");
    assert_eq!(p, "custom-Arcade Fighting.cfg");
    let d = disk(
        &p,
        b"/userdata/roms/fbneo/64street.zip\n\n# note\n/userdata/roms/fbneo/aodk.zip\n",
    );
    let mut c = CollectionFile::load(&d, &p).unwrap();
    assert_eq!(c.entries.len(), 2, "blank and commented lines are not games");
    c.entries.insert("/userdata/roms/fbneo/aliencha.zip");
    let written = c.save().unwrap();
    assert_eq!(CollectionFile::load(&disk(&p, written.as_bytes()), &p).unwrap().entries.len(), 3);
    c.saved();
    assert!(c.save().is_none(), "rewrote a file that already said this");
}

#[test]
fn a_collection_named_with_a_slash_does_not_become_a_directory() {
    assert_eq!(CollectionFile::file_name("Shmups / Vertical"), "custom-Shmups - Vertical.cfg");
}

#[test]
fn a_collection_file_nobody_has_made_yet_reads_as_empty() {
    assert!(CollectionFile::load(&nothing(), "custom-Nothing.cfg").unwrap().entries.is_empty());
}

const SETTINGS: &str = "<?xml version=\"1.0\"?>\n<config>\n\
\t<string name=\"CollectionSystemsCustom\" value=\"Arcade Fighting,Arcade Maze\" />\n\
\t<string name=\"ThemeSet\" value=\"knulli\" />\n\
</config>\n";

#[test]
fn a_collection_file_is_invisible_until_es_is_told_to_show_it() {
    assert_eq!(
        enabled_collections(SETTINGS),
        vec!["Arcade Fighting".to_owned(), "Arcade Maze".to_owned()]
    );
    let out = show_collections(SETTINGS, &vec!["★ Best of snes".to_owned()]).unwrap();
    assert!(out.contains("Arcade Fighting"), "dropped one that was already shown");
    assert!(out.contains("★ Best of snes"));
    assert!(out.contains("<string name=\"ThemeSet\" value=\"knulli\" />"), "ate another setting");
}

#[test]
fn telling_es_what_it_already_shows_rewrites_nothing() {
    assert!(show_collections(SETTINGS, &vec!["Arcade Maze".to_owned()]).is_none());
}

#[test]
fn a_game_block_with_attributes_is_still_a_game() {
    let with_attributes = "<?xml version=\"1.0\"?>\n<gameList>\n\
\t<game id=\"4231\" source=\"ScreenScraper.fr\">\n\
\t\t<path>./Tetris.gb</path>\n\
\t\t<name>Tetris</name>\n\
\t\t<favorite>true</favorite>\n\
\t</game>\n\
\t<game\tid=\"12\">\n\
\t\t<path>./Dr. Mario.gb</path>\n\
\t</game>\n\
</gameList>\n";
    let mut list = loaded(with_attributes);
    assert_eq!(list.favorites(), ["Tetris.gb"]);
    assert_eq!(list.known().len(), 2);
    assert!(list.set_favorite("Dr. Mario.gb", true));
    assert_eq!(
        text(&list).matches("<path>./Dr. Mario.gb</path>").count(),
        1,
        "added a second block"
    );
    assert!(list.set_favorite("Tetris.gb", false));
    assert_eq!(list.favorites(), ["Dr. Mario.gb"]);
    // `<gameList>` itself is not a game.
    assert!(loaded("<gameList>\n</gameList>\n").known().is_empty());
}

#[test]
fn a_game_in_a_subfolder_is_starred_by_its_path() {
    let one = "<gameList>\n\t<game>\n\t\t<path>./Foo.sfc</path>\n\t</game>\n</gameList>\n";
    let mut list = loaded(one);
    assert!(list.set_favorite("Aftermarket/Foo.sfc", true));
    assert_eq!(list.favorites(), ["Aftermarket/Foo.sfc"]);
    assert!(text(&list).contains("<path>./Aftermarket/Foo.sfc</path>"));
    assert!(text(&list).contains("<name>Foo</name>"), "the name is the file's, not the folder's");
}

#[test]
fn an_unreadable_gamelist_is_an_error_not_an_empty_list() {
    let d = disk(AT, b"<gameList>\n\xff\xfe</gameList>\n");
    assert!(Gamelist::load_if_present(&d, AT).is_err());
    assert!(Gamelist::load_or_empty(&d, AT).is_err());
    assert!(Gamelist::load_if_present(&d, "/userdata/roms/gb/none.xml").unwrap().is_none());
}

#[test]
fn comments_and_order_in_a_collection_file_survive_a_save() {
    let p = "custom-Arcade Maze.cfg";
    let d = disk(
        p,
        b"# picked by hand\n/userdata/roms/fbneo/pacman.zip\n\n# the hard ones\n/userdata/roms/fbneo/digdug.zip\n/userdata/roms/fbneo/amidar.zip\n",
    );
    let mut c = CollectionFile::load(&d, p).unwrap();
    c.entries.remove("/userdata/roms/fbneo/digdug.zip");
    c.entries.insert("/userdata/roms/fbneo/alibaba.zip");
    assert_eq!(
        c.save().unwrap(),
        "# picked by hand\n/userdata/roms/fbneo/pacman.zip\n\n# the hard ones\n/userdata/roms/fbneo/amidar.zip\n/userdata/roms/fbneo/alibaba.zip\n"
    );
}

#[test]
fn an_unreadable_collection_file_is_an_error() {
    let p = "custom-X.cfg";
    assert!(CollectionFile::load(&disk(p, b"/userdata/roms/fbneo/\xff.zip\n"), p).is_err());
}

#[test]
fn a_quote_in_a_collection_name_is_escaped_in_the_settings() {
    let settings = "<?xml version=\"1.0\"?>\n<config>\n\
\t<string name=\"CollectionSystemsCustom\" value=\"Best &quot;Hard&quot; Ones,Arcade Maze\" />\n\
</config>\n";
    assert_eq!(
        enabled_collections(settings),
        vec!["Best \"Hard\" Ones".to_owned(), "Arcade Maze".to_owned()]
    );
    let out = show_collections(settings, &vec!["Say \"Hi\"".to_owned()]).unwrap();
    assert!(
        out.contains("value=\"Arcade Maze,Best &quot;Hard&quot; Ones,Say &quot;Hi&quot;\""),
        "{out}"
    );
    assert_eq!(enabled_collections(&out).len(), 3);
}

#[test]
fn a_comma_in_a_collection_name_does_not_split_it_in_two() {
    let out = show_collections(SETTINGS, &vec!["Shmups, Vertical".to_owned()]).unwrap();
    let shown = enabled_collections(&out);
    assert_eq!(shown.len(), 3, "{shown:?}");
    assert!(shown.contains(&"Shmups- Vertical".to_owned()));
    assert_eq!(CollectionFile::file_name("Shmups, Vertical"), "custom-Shmups- Vertical.cfg");
    assert_eq!(es_name("a/b,c"), "a-b-c");
}

#[test]
fn settings_that_cannot_be_read_are_not_rewritten() {
    let p = "/userdata/es_settings.cfg";
    let d = disk(p, b"<config>\n\t<string name=\"A\" value=\"\xff\" />\n</config>\n");
    let wanted = vec!["Arcade Maze".to_owned()];
    assert!(settings_showing(&d, p, &wanted).is_err());
    // Missing is a fresh file, and a well-formed one.
    let fresh = settings_showing(&d, "/userdata/none.cfg", &wanted).unwrap().unwrap();
    assert!(fresh.contains("<config>") && fresh.contains("</config>"), "{fresh}");
    assert_eq!(enabled_collections(&fresh), vec!["Arcade Maze".to_owned()]);
    assert!(settings_showing(&d, p, &Vec::new()).unwrap().is_none());
}

#[test]
fn a_rewrite_keeps_the_old_file_and_the_oldest_copies_go() {
    let list = "/card/snes/gamelist.xml";
    let mut kept: Vec<String> = Vec::new();
    for i in 0..12u128 {
        let copy = back_up("/card/es-backup", list, 3600 + i);
        assert_eq!(copy, format!("/card/es-backup/snes/{}-gamelist.xml", 3600 + i));
        let name = copy.rsplit('/').next().unwrap().to_string();
        kept.push(name);
        let stale = stale_copies(&kept, "gamelist.xml");
        kept.retain(|k| !stale.contains(k));
    }
    assert_eq!(kept.len(), KEEP);
    assert!(kept.contains(&"3611-gamelist.xml".to_owned()));
    assert!(!kept.contains(&"3600-gamelist.xml".to_owned()), "the oldest should have gone");
    // Another file's copies are not counted, and neither is what is no copy.
    let mut others = kept.clone();
    others.push("1-other.xml".to_owned());
    others.push("notes-gamelist.xml".to_owned());
    assert!(stale_copies(&others, "gamelist.xml").is_empty());
}

#[test]
fn a_settings_file_without_the_line_gets_one() {
    let bare = "<?xml version=\"1.0\"?>\n<config>\n\t<string name=\"ThemeSet\" value=\"knulli\" />\n</config>\n";
    let out = show_collections(bare, &vec!["Arcade Maze".to_owned()]).unwrap();
    assert!(out.contains("name=\"CollectionSystemsCustom\" value=\"Arcade Maze\""));
    assert!(out.contains("</config>"), "lost the closing tag");
    assert_eq!(enabled_collections(&out), vec!["Arcade Maze".to_owned()]);
}

#[test]
fn what_was_escaped_reads_back() {
    let odd = "a <b> & \"c\" 'd'";
    assert_eq!(xml::unescape(&xml::escape(odd)), odd);
    assert_eq!(xml::escape("Tom & Jerry"), "Tom &amp; Jerry");
}

#[test]
fn one_star_moves_and_the_others_stay() {
    let mut list = loaded(REAL);
    assert!(list.set_favorite("Tetris.gb", true));
    assert!(list.set_favorite("Avenging Spirit.gb", false));
    assert_eq!(list.favorites(), ["Tetris.gb"]);
    assert_eq!(list.known(), ["Avenging Spirit.gb", "Tetris.gb"]);
    assert_eq!(list.path(), AT);
}

#[test]
fn what_a_collection_file_was_saved_with_reads_back() {
    let p = "custom-X.cfg";
    let mut c = CollectionFile::from_text(p, "# mine\n/r/a.zip\n");
    assert!(c.save().is_none());
    assert!(c.entries.insert("/r/b.zip"));
    assert!(!c.entries.insert("/r//b.zip"), "the same path");
    let written = c.save().unwrap();
    assert_eq!(written, "# mine\n/r/a.zip\n/r/b.zip\n");
    let again = CollectionFile::from_text(p, &written);
    assert!(again.entries.contains("/r/a.zip") && again.entries.contains("/r/b.zip"));
    assert!(again.save().is_none());
}

#[test]
fn a_block_on_one_line_is_starred_inside_it() {
    let mut list = loaded("<gameList>\n<game><path>./A.gb</path></game>\n</gameList>\n");
    assert!(list.set_favorite("A.gb", true));
    assert_eq!(list.favorites(), ["A.gb"]);
    assert_eq!(list.known(), ["A.gb"]);
    assert_eq!(
        text(&list),
        "<gameList>\n<game><path>./A.gb</path>\t\t<favorite>true</favorite>\n</game>\n</gameList>\n"
    );
    assert!(list.set_favorite("A.gb", false));
    assert!(list.favorites().is_empty());
    assert_eq!(list.known(), ["A.gb"]);
    // The same where the whole list is one line.
    let mut list = loaded("<gameList><game><path>./A.gb</path></game></gameList>");
    assert!(list.set_favorite("A.gb", true));
    assert_eq!(list.favorites(), ["A.gb"]);
}

#[test]
fn starring_and_unstarring_gives_the_file_back() {
    let mut list = loaded(REAL);
    assert!(list.set_favorite("Tetris.gb", true));
    assert_ne!(text(&list), REAL);
    assert!(list.set_favorite("Tetris.gb", false));
    assert_eq!(text(&list), REAL);
}

#[test]
fn every_star_but_the_one_that_was_set_stays() {
    let mut list = loaded(REAL);
    assert!(list.set_favorite("New.gb", true));
    assert_eq!(list.favorites(), ["Avenging Spirit.gb", "New.gb"]);
    assert_eq!(list.known(), ["Avenging Spirit.gb", "New.gb", "Tetris.gb"]);
    assert!(!list.set_favorite("Gone.gb", false));
    assert_eq!(list.known().len(), 3);
    assert!(list.set_favorite("New.gb", false));
    assert_eq!(list.favorites(), ["Avenging Spirit.gb"]);
    assert_eq!(list.known().len(), 3);
}

#[test]
fn a_list_is_changed_once_some_call_moved_something() {
    let mut list = loaded(REAL);
    assert!(!list.set_favorite("Avenging Spirit.gb", true));
    assert!(!list.set_favorite("Tetris.gb", false));
    assert!(!list.changed());
    assert!(list.set_favorite("Tetris.gb", true));
    assert!(!list.set_favorite("Tetris.gb", true));
    assert!(list.changed());
}

#[test]
fn a_list_that_was_saved_reads_back_with_its_stars() {
    let mut list = loaded(REAL);
    assert_eq!(list.save(), None);
    assert!(list.set_favorite("Tetris.gb", true));
    let again = loaded(&text(&list));
    assert_eq!(again.favorites(), list.favorites());
    assert_eq!(again.known(), list.known());
    assert!(!again.changed());
    assert_eq!(again.save(), None);
}

#[test]
fn showing_a_collection_leaves_every_other_setting_where_it_was() {
    let out = show_collections(SETTINGS, &vec!["Arcade Beat".to_owned(), "Arcade Maze".to_owned()]).unwrap();
    assert_eq!(
        enabled_collections(&out),
        vec!["Arcade Beat".to_owned(), "Arcade Fighting".to_owned(), "Arcade Maze".to_owned()]
    );
    let others = |t: &str| -> Vec<String> {
        t.lines().filter(|l| !l.contains("CollectionSystemsCustom")).map(str::to_owned).collect()
    };
    assert_eq!(others(&out), others(SETTINGS));
    assert_eq!(out.lines().count(), SETTINGS.lines().count());
    // A line more where there was none.
    let bare = "<config>\n\t<string name=\"ThemeSet\" value=\"knulli\" />\n</config>\n";
    let out = show_collections(bare, &vec!["Arcade Maze".to_owned()]).unwrap();
    assert_eq!(others(&out), others(bare));
    assert_eq!(out.lines().count(), 4);
}
