use ramp64_convert_gui::file_groups::{FileGroups, Group};
use ramp64_convert_gui::group_item::{check_can_add_file, file_stem_of, tag_path, GroupItem, Tag, Way};

#[test]
fn tag_path_reads_extensions_case_insensitively() {
    assert_eq!(tag_path("save.srm", None), Some(Tag::Srm));
    assert_eq!(tag_path("SAVE.SRM", None), Some(Tag::Srm));
    assert_eq!(tag_path("save.SrM", None), Some(Tag::Srm));
    assert_eq!(tag_path("dir/save.eep", None), Some(Tag::Eep));
    assert_eq!(tag_path("save.sra", None), Some(Tag::Sra));
    assert_eq!(tag_path("save.fla", None), Some(Tag::Fla));
    assert_eq!(tag_path("save.mpk1", None), Some(Tag::Mpk1));
    assert_eq!(tag_path("save.mpk2", None), Some(Tag::Mpk2));
    assert_eq!(tag_path("save.mpk3", None), Some(Tag::Mpk3));
    assert_eq!(tag_path("save.mpk4", None), Some(Tag::Mpk4));
    assert_eq!(tag_path("save.txt", None), None);
    assert_eq!(tag_path("save", None), None);
    // A name that starts with its only dot has no extension.
    assert_eq!(tag_path("dir/.srm", None), None);
}

#[test]
fn combined_controller_pack_is_told_apart_by_size() {
    assert_eq!(tag_path("save.mpk", None), Some(Tag::Mpk));
    assert_eq!(tag_path("save.mpk", Some(123)), Some(Tag::Mpk));
    assert_eq!(tag_path("save.mpk", Some(0x8000)), Some(Tag::Mpk1));
}

#[test]
fn can_add_file_accepts_exactly_the_known_extensions() {
    assert!(check_can_add_file("a/b/game.srm"));
    assert!(check_can_add_file("game.MPK3"));
    assert!(!check_can_add_file("game.zip"));
    assert!(!check_can_add_file("game"));
}

#[test]
fn file_stem_strips_directories_and_the_last_extension() {
    assert_eq!(file_stem_of("dir/game.srm"), b"game".to_vec());
    assert_eq!(file_stem_of("game.srm"), b"game".to_vec());
    assert_eq!(file_stem_of("C:\\saves\\game.mpk1"), b"game".to_vec());
    assert_eq!(file_stem_of("archive.tar.gz"), b"archive.tar".to_vec());
    assert_eq!(file_stem_of("game"), b"game".to_vec());
    assert_eq!(file_stem_of("dir/.hidden"), b".hidden".to_vec());
}

#[test]
fn setting_a_battery_file_clears_the_other_batteries() {
    let mut item = GroupItem::from(String::from("game.eep"), None);
    assert_eq!(item.way, Way::Create);
    assert_eq!(item.paths.eep, Some(String::from("game.eep")));
    item.set(String::from("game.sra"), None);
    assert_eq!(item.paths.eep, None);
    assert_eq!(item.paths.sra, Some(String::from("game.sra")));
    item.set(String::from("game.fla"), None);
    assert_eq!(item.paths.sra, None);
    assert_eq!(item.paths.fla, Some(String::from("game.fla")));
}

#[test]
fn setting_packs_clears_the_competing_packs() {
    let mut item = GroupItem::from(String::from("game.mpk"), None);
    assert_eq!(item.paths.mpk, Some(String::from("game.mpk")));
    item.set(String::from("game.mpk2"), None);
    assert_eq!(item.paths.mpk, None);
    assert_eq!(item.paths.mpk2, Some(String::from("game.mpk2")));
    item.set(String::from("game.mpk"), None);
    assert_eq!(item.paths.mpk2, None);
    assert_eq!(item.paths.mpk, Some(String::from("game.mpk")));
}

#[test]
fn a_packed_file_starts_a_split_group() {
    let split = GroupItem::from(String::from("game.srm"), None);
    assert_eq!(split.way, Way::Split);
    assert!(split.is_valid());
    let create = GroupItem::from(String::from("game.eep"), None);
    assert_eq!(create.way, Way::Create);
    assert!(create.is_valid());
    let empty_split = GroupItem::split(Default::default());
    assert!(!empty_split.is_valid());
    let empty_create = GroupItem::create(Default::default());
    assert!(!empty_create.is_valid());
}

#[test]
fn files_with_one_stem_share_a_group() {
    let mut groups = FileGroups::default();
    assert!(groups.is_empty());
    groups.add_file(String::from("a/game.srm"), None);
    groups.add_file(String::from("b/game.eep"), None);
    assert_eq!(groups.len(), 1);
    let g = groups.get(0);
    assert_eq!(g.name, b"game".to_vec());
    assert_eq!(g.item.way, Way::Split);
    assert_eq!(g.item.paths.srm, Some(String::from("a/game.srm")));
    assert_eq!(g.item.paths.eep, Some(String::from("b/game.eep")));
}

#[test]
fn groups_are_kept_sorted_by_name() {
    let mut groups = FileGroups::default();
    groups.add_files(vec![
        (String::from("zelda.srm"), None),
        (String::from("mario.eep"), None),
        (String::from("banjo.fla"), None),
    ]);
    assert_eq!(groups.len(), 3);
    assert_eq!(groups.get(0).name, b"banjo".to_vec());
    assert_eq!(groups.get(1).name, b"mario".to_vec());
    assert_eq!(groups.get(2).name, b"zelda".to_vec());
}

#[test]
fn remove_selected_drops_exactly_the_selected_rows() {
    let mut groups = FileGroups::default();
    groups.add_files(vec![
        (String::from("a.srm"), None),
        (String::from("b.srm"), None),
        (String::from("c.srm"), None),
    ]);
    assert!(!groups.has_selection());
    groups.select_all();
    assert!(groups.has_selection());
    groups.remove_selected();
    assert!(groups.is_empty());
    assert!(!groups.has_selection());

    let mut groups = FileGroups::default();
    groups.add_files(vec![
        (String::from("a.srm"), None),
        (String::from("b.srm"), None),
        (String::from("c.srm"), None),
    ]);
    let mut sel = groups.take_selection();
    let middle = sel.get_or_insert(Default::default());
    middle.add(1..2);
    groups.set_selection(sel);
    groups.remove_selected();
    assert_eq!(groups.len(), 2);
    assert_eq!(groups.get(0).name, b"a".to_vec());
    assert_eq!(groups.get(1).name, b"c".to_vec());
}

#[test]
fn validate_reports_whether_every_group_is_ready() {
    let mut groups = FileGroups::default();
    assert!(groups.validate());
    groups.add_file(String::from("game.eep"), None);
    assert!(groups.validate());
    let taken = groups.take_all();
    assert_eq!(taken.len(), 1);
    assert!(groups.is_empty());
    // A split group without its packed file is not ready.
    groups.put_back(Group {
        name: b"game".to_vec(),
        item: GroupItem::split(Default::default()),
    });
    assert_eq!(groups.len(), 1);
    assert!(!groups.validate());
    // Putting a group back under an existing name replaces it.
    groups.put_back(Group {
        name: b"game".to_vec(),
        item: GroupItem::from(String::from("game.srm"), None),
    });
    assert_eq!(groups.len(), 1);
    assert!(groups.validate());
}
