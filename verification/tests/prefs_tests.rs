use wfns_manager::prefs::{AppMode, AppPreferences};

#[test]
fn default_preferences_are_empty_in_subfolder_mode() {
    let p = AppPreferences::default();
    assert!(p.favs_folders.is_empty());
    assert_eq!(p.app_mode, AppMode::SubFolders);
    assert_eq!(AppMode::default(), AppMode::SubFolders);
}

#[test]
fn insert_reports_whether_the_set_changed() {
    let mut p = AppPreferences::default();
    assert!(p.insert("/home/a".to_string()));
    assert!(!p.insert("/home/a".to_string()));
    assert_eq!(p.favs_folders, vec!["/home/a".to_string()]);
}

#[test]
fn remove_reports_whether_the_set_changed() {
    let mut p = AppPreferences::default();
    assert!(p.insert("/home/a".to_string()));
    assert!(p.remove("/home/a"));
    assert!(!p.remove("/home/a"));
    assert!(p.favs_folders.is_empty());
}

#[test]
fn insert_then_remove_restores_the_prior_set() {
    let mut p = AppPreferences::default();
    assert!(p.insert("/keep".to_string()));
    assert!(p.insert("/fresh".to_string()));
    assert!(p.remove("/fresh"));
    assert_eq!(p.favs_folders, vec!["/keep".to_string()]);
}

#[test]
fn contains_path_reports_membership() {
    let mut p = AppPreferences::default();
    assert!(!p.contains_path("/x"));
    p.insert("/x".to_string());
    assert!(p.contains_path("/x"));
    assert!(!p.contains_path("/y"));
}

#[test]
fn favorites_serialize_one_path_per_line() {
    let mut p = AppPreferences::default();
    assert_eq!(p.to_text(), String::new());
    p.insert("/a".to_string());
    assert_eq!(p.to_text(), "/a".to_string());
    p.insert("/b b".to_string());
    assert_eq!(p.to_text(), "/a\n/b b".to_string());
}

#[test]
fn favorites_survive_a_text_round_trip() {
    let mut p = AppPreferences::default();
    p.insert("/one".to_string());
    p.insert("/two".to_string());
    let q = AppPreferences::from_text(p.to_text().as_str());
    assert_eq!(q.favs_folders, p.favs_folders);
    assert_eq!(q.app_mode, AppMode::SubFolders);
}

#[test]
fn parsing_drops_duplicates_and_a_trailing_newline() {
    let p = AppPreferences::from_text("/a\n/b\n/a\n");
    assert_eq!(p.favs_folders, vec!["/a".to_string(), "/b".to_string()]);
}

#[test]
fn parsing_empty_text_gives_no_favorites() {
    let p = AppPreferences::from_text("");
    assert!(p.favs_folders.is_empty());
}

#[test]
fn parsing_keeps_an_interior_empty_line_as_an_entry() {
    let p = AppPreferences::from_text("/a\n\n/b");
    assert_eq!(
        p.favs_folders,
        vec!["/a".to_string(), String::new(), "/b".to_string()]
    );
}
