use moose_rack_core::collections::{load, parse, Collection, FoundFile, NameKey, Unmatched};
use moose_rack_core::table::Table;

type Names = Table<NameKey, i64>;

fn name(platform: &str, name: &str) -> NameKey {
    NameKey { platform: platform.to_owned(), name: name.to_owned() }
}

fn lib() -> Names {
    let mut t = Table::new();
    t.insert(name("nes", "castlevania (usa)"), 1);
    t.insert(name("nes", "contra (usa)"), 2);
    t.insert(name("nes", "metroid (usa)"), 3);
    t
}

fn of(files: &[(&str, &str)], names: &Names) -> (Vec<Collection>, Vec<Unmatched>) {
    let found = files
        .iter()
        .map(|(n, body)| FoundFile { name: n.to_string(), text: Some(body.to_string()) })
        .collect();
    load(&found, names)
}

#[test]
fn names_resolve_to_ids_and_comments_are_skipped() {
    let (cols, missing) = of(
        &[("best.txt", "# ★ Best of nes\n# 2 games\nnes/Castlevania (USA)\nnes/Contra (USA)\n")],
        &lib(),
    );
    assert_eq!(cols.len(), 1);
    assert_eq!(cols[0].name, "★ Best of nes");
    assert_eq!(cols[0].rom_ids, vec![1, 2]);
    assert_eq!(cols[0].rom_count, 2);
    assert!(missing.is_empty());
}

#[test]
fn a_starred_list_is_a_favourite() {
    let (cols, _) = of(
        &[
            ("a.txt", "# ★ Best of nes\nnes/Contra (USA)\n"),
            ("b.txt", "# Arcade Puzzle\nnes/Contra (USA)\n"),
        ],
        &lib(),
    );
    assert!(cols.iter().find(|c| c.name.contains("Best")).unwrap().is_favorite);
    assert!(!cols.iter().find(|c| c.name.contains("Arcade")).unwrap().is_favorite);
}

#[test]
fn matching_forgives_case_and_whitespace() {
    let (cols, missing) =
        of(&[("a.txt", "# x\n  nes/CASTLEVANIA (usa)  \n\tnes/Contra (USA)\n\n")], &lib());
    assert_eq!(cols[0].rom_ids, vec![1, 2]);
    assert!(missing.is_empty());
}

#[test]
fn an_unmatched_name_is_reported_not_swallowed() {
    let (cols, missing) = of(
        &[("a.txt", "# ★ Best of nes\nnes/Contra (USA)\nnes/Game That Left (USA)\n")],
        &lib(),
    );
    assert_eq!(cols[0].rom_ids, vec![2], "only the one that resolved");
    assert_eq!(missing.len(), 1);
    assert_eq!(missing[0].name, "Game That Left (USA)");
    assert_eq!(missing[0].collection, "★ Best of nes");
}

#[test]
fn the_same_game_twice_is_counted_once() {
    let (cols, _) = of(&[("a.txt", "# x\nnes/Contra (USA)\nnes/Contra (USA)\n")], &lib());
    assert_eq!(cols[0].rom_ids, vec![2]);
    assert_eq!(cols[0].rom_count, 1);
}

#[test]
fn a_missing_or_empty_directory_is_not_an_error() {
    assert_eq!(of(&[], &lib()).0.len(), 0);
}

#[test]
fn only_txt_files_count() {
    let (cols, _) = of(
        &[
            ("a.txt", "# real\nnes/Contra (USA)\n"),
            ("README.md", "# not a collection\nnes/Contra (USA)\n"),
            ("a.txt.bak", "# nor this\nnes/Contra (USA)\n"),
        ],
        &lib(),
    );
    assert_eq!(cols.len(), 1);
    assert_eq!(cols[0].name, "real");
}

#[test]
fn a_trailing_title_comment_is_not_part_of_the_name() {
    let (cols, missing) =
        of(&[("a.txt", "# x\nnes/Contra (USA)    # Contra\nnes/Castlevania (USA)\n")], &lib());
    let mut ids = cols[0].rom_ids.clone();
    ids.sort();
    assert_eq!(ids, vec![1, 2]);
    assert_eq!(cols[0].rom_ids, vec![1, 2]);
    assert!(missing.is_empty(), "the comment must not break the match");
}

#[test]
fn a_hash_in_the_name_itself_survives() {
    let mut l = lib();
    l.insert(name("nes", "#1 club (usa)"), 9);
    let (cols, missing) = of(&[("a.txt", "# x\nnes/#1 Club (USA)\n")], &l);
    assert_eq!(cols[0].rom_ids, vec![9], "the platform prefix rescues it");
    assert!(missing.is_empty());
}

#[test]
fn the_title_comment_is_a_fallback_when_the_filename_does_not_match() {
    let mut l: Names = Table::new();
    // The library knows this game only by its display title.
    l.insert(name("nes", "contra"), 7);
    let (cols, missing) = of(&[("a.txt", "# x\nnes/Contra (USA)    # Contra\n")], &l);
    assert_eq!(cols[0].rom_ids, vec![7], "fell back to the title");
    assert!(missing.is_empty());
}

#[test]
fn the_filename_wins_when_both_are_known() {
    let mut l: Names = Table::new();
    l.insert(name("nes", "contra (usa)"), 1);
    l.insert(name("nes", "contra"), 2);
    let (cols, _) = of(&[("a.txt", "# x\nnes/Contra (USA)    # Contra\n")], &l);
    assert_eq!(cols[0].rom_ids, vec![1]);
}

#[test]
fn the_same_name_on_two_platforms_is_two_games() {
    let mut l: Names = Table::new();
    l.insert(name("arcade", "contra"), 100);
    l.insert(name("famicom", "contra"), 200);
    let (cols, missing) = of(&[("a.txt", "# Arcade Classics\narcade/Contra\n")], &l);
    assert_eq!(cols[0].rom_ids, vec![100], "must not take the famicom one");
    assert!(missing.is_empty());
    // And a platform the library does not have resolves to nothing rather
    // than to whatever shares the name.
    let (cols, missing) = of(
        &[
            ("a.txt", "# Arcade Classics\narcade/Contra\n"),
            ("b.txt", "# Best of megadrive\nmegadrive/Contra\n"),
        ],
        &l,
    );
    let md = cols.iter().find(|c| c.name.contains("megadrive")).unwrap();
    assert!(md.rom_ids.is_empty(), "no platform match, no membership");
    assert_eq!(missing.len(), 1);
}

#[test]
fn a_file_that_could_not_be_read_is_no_collection() {
    let found = vec![FoundFile { name: "a.txt".to_string(), text: None }];
    assert!(load(&found, &lib()).0.is_empty());
}

#[test]
fn a_list_without_a_heading_is_named_after_its_file() {
    let (c, _) = parse("mine", "nes/Contra (USA)\n", &lib());
    assert_eq!(c.name, "mine");
    assert_eq!(c.rom_ids, [2]);
}

#[test]
fn collections_is_empty_not_missing() {
    let (cols, missing) = load(&vec![], &lib());
    assert!(cols.is_empty());
    assert!(missing.is_empty());
}
