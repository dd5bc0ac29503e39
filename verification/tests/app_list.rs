use app_launcher::apps::{
    add_apps_from_paths, classify, contains_path, delete_app, delete_row, display_name, entry_for,
    entry_kind, fill_rows, forget_app, link_to_resolve, reload_apps, request_delete, same_apps,
    show_apps, DeleteStep, EntryKind, PickedFile, SavedApp,
};
use app_launcher::rows::Rows;
use app_launcher::utf16::encode;
use slint::Model;

fn app(name: &str, path: &str) -> SavedApp {
    SavedApp { name: name.to_string(), path: path.to_string() }
}

fn file(path: &str) -> PickedFile {
    PickedFile { path: encode(path), link: None }
}

fn link(path: &str, name: &str, target: &str) -> PickedFile {
    PickedFile { path: encode(path), link: Some((name.to_string(), target.to_string())) }
}

fn rows_of(list: &[SavedApp]) -> Rows {
    let mut rows = Rows::new();
    fill_rows(list, &mut rows);
    rows
}

fn shown(rows: &Rows) -> Vec<SavedApp> {
    rows.window_model().iter().map(|r| app(&r.0, &r.1)).collect()
}

#[test]
fn extensions_decide_the_kind() {
    assert_eq!(entry_kind("exe"), EntryKind::Executable);
    assert_eq!(entry_kind("lnk"), EntryKind::Shortcut);
    assert_eq!(entry_kind(""), EntryKind::Unsupported);
    assert_eq!(entry_kind("EXE"), EntryKind::Unsupported);
    assert_eq!(entry_kind("bat"), EntryKind::Unsupported);
}

#[test]
fn case_of_the_extension_does_not_matter() {
    assert_eq!(classify(&encode("C:\\a.exe")), EntryKind::Executable);
    assert_eq!(classify(&encode("C:\\A.EXE")), EntryKind::Executable);
    assert_eq!(classify(&encode("C:\\a.eXe")), EntryKind::Executable);
    assert_eq!(classify(&encode("C:\\a.Lnk")), EntryKind::Shortcut);
    assert_eq!(classify(&encode("C:\\a.txt")), EntryKind::Unsupported);
    assert_eq!(classify(&encode("C:\\exe")), EntryKind::Unsupported);
    assert_eq!(classify(&encode("C:\\.exe")), EntryKind::Unsupported);
    assert_eq!(classify(&encode("C:\\a.exe\\..")), EntryKind::Unsupported);
}

#[test]
fn lower_case_is_that_of_unicode() {
    assert_eq!(classify(&encode("a.ln\u{212A}")), EntryKind::Shortcut);
    assert_eq!(classify(&encode("a.\u{FF25}XE")), EntryKind::Unsupported);
}

#[test]
fn an_extension_that_is_no_text_is_unsupported() {
    let mut path = encode("a.exe");
    path.push(0xD800);
    assert_eq!(classify(&path), EntryKind::Unsupported);
}

#[test]
fn names_come_from_the_stem() {
    assert_eq!(display_name(&encode("C:\\Games\\Chess.v2.exe")), "Chess.v2");
    assert_eq!(display_name(&encode("C:\\")), "Unknown");
    let mut path = vec![0xD800];
    path.extend(encode(".exe"));
    assert_eq!(display_name(&path), "Unknown");
}

#[test]
fn text_paths_are_named_by_their_file() {
    assert_eq!(display_name(&encode("C:\\🚀\\起動🛰.exe")), "起動🛰");
    assert_eq!(display_name(&encode("C:\\🚀\\..")), "Unknown");
}

#[test]
fn only_shortcuts_are_resolved() {
    assert_eq!(link_to_resolve(&encode("C:\\a.LNK")), Some("C:\\a.LNK".to_string()));
    assert_eq!(link_to_resolve(&encode("C:\\a.exe")), None);
    let mut path = vec![0xD800];
    path.extend(encode(".lnk"));
    assert_eq!(link_to_resolve(&path), Some("\u{FFFD}.lnk".to_string()));
}

#[test]
fn entries_follow_links_of_shortcuts_only() {
    assert_eq!(entry_for(&file("C:\\a.exe")), Some(app("a", "C:\\a.exe")));
    assert_eq!(entry_for(&link("C:\\a.exe", "x", "C:\\x.exe")), Some(app("a", "C:\\a.exe")));
    assert_eq!(entry_for(&link("C:\\a.lnk", "x", "C:\\x.exe")), Some(app("x", "C:\\x.exe")));
    assert_eq!(entry_for(&file("C:\\a.lnk")), Some(app("a", "C:\\a.lnk")));
    assert_eq!(entry_for(&link("C:\\a.txt", "x", "C:\\x.exe")), None);
}

#[test]
fn a_path_that_is_no_text_is_listed_lossily() {
    let mut path = encode("C:\\");
    path.push(0xDC00);
    path.extend(encode(".exe"));
    let entry = entry_for(&PickedFile { path, link: None });
    assert_eq!(entry, Some(app("Unknown", "C:\\\u{FFFD}.exe")));
}

#[test]
fn paths_are_looked_up_exactly() {
    let list = vec![app("a", "C:\\a.exe")];
    assert!(contains_path(&list, &"C:\\a.exe".to_string()));
    assert!(!contains_path(&list, &"C:\\A.exe".to_string()));
    assert!(!contains_path(&[], &"C:\\a.exe".to_string()));
}

#[test]
fn adding_appends_supported_files_in_order() {
    let mut apps = vec![app("old", "C:\\old.exe")];
    let mut rows = rows_of(&apps);
    let files = vec![
        file("C:\\b.exe"),
        file("C:\\readme.txt"),
        link("C:\\c.lnk", "target", "D:\\target.exe"),
        file("C:\\a.LNK"),
    ];
    assert!(add_apps_from_paths(&files, &mut apps, &mut rows));
    let expected = vec![
        app("old", "C:\\old.exe"),
        app("b", "C:\\b.exe"),
        app("target", "D:\\target.exe"),
        app("a", "C:\\a.LNK"),
    ];
    assert_eq!(apps, expected);
    assert_eq!(shown(&rows), expected);
}

#[test]
fn adding_nothing_needs_no_saving() {
    let mut apps = vec![app("a", "C:\\a.exe")];
    let mut rows = rows_of(&apps);
    assert!(!add_apps_from_paths(&[], &mut apps, &mut rows));
    assert!(!add_apps_from_paths(&[file("C:\\a.txt")], &mut apps, &mut rows));
    assert_eq!(apps, vec![app("a", "C:\\a.exe")]);
    assert_eq!(rows.window_model().row_count(), 1);
}

#[test]
fn registered_paths_are_passed_over() {
    let mut apps = vec![app("mine", "C:\\a.exe")];
    let mut rows = rows_of(&apps);
    let files = vec![file("C:\\a.exe"), link("C:\\s.lnk", "a", "C:\\a.exe"), file("C:\\b.exe")];
    assert!(add_apps_from_paths(&files, &mut apps, &mut rows));
    assert_eq!(apps, vec![app("mine", "C:\\a.exe"), app("b", "C:\\b.exe")]);
}

#[test]
fn files_added_together_are_listed_once() {
    let mut apps = Vec::new();
    let mut rows = Rows::new();
    let files = vec![link("C:\\1.lnk", "a", "C:\\a.exe"), link("C:\\2.lnk", "b", "C:\\a.exe")];
    assert!(add_apps_from_paths(&files, &mut apps, &mut rows));
    assert_eq!(apps, vec![app("a", "C:\\a.exe")]);
    assert_eq!(shown(&rows), apps);
}

#[test]
fn one_file_given_twice_is_listed_once() {
    let mut apps = Vec::new();
    let mut rows = Rows::new();
    assert!(add_apps_from_paths(&[file("C:/a.exe"), file("C:/a.exe")], &mut apps, &mut rows));
    assert_eq!(apps, vec![app("a", "C:/a.exe")]);
    assert_eq!(shown(&rows), vec![app("a", "C:/a.exe")]);
}

#[test]
fn a_shortcut_given_with_its_target_is_listed_once() {
    let mut apps = vec![app("x", "C:\\x.exe")];
    let mut rows = rows_of(&apps);
    let files = vec![
        file("C:\\a.exe"),
        link("C:\\s.lnk", "a", "C:\\a.exe"),
        file("C:\\b.exe"),
        file("C:\\x.exe"),
    ];
    assert!(add_apps_from_paths(&files, &mut apps, &mut rows));
    let expected = vec![app("x", "C:\\x.exe"), app("a", "C:\\a.exe"), app("b", "C:\\b.exe")];
    assert_eq!(apps, expected);
    assert_eq!(shown(&rows), expected);
}

#[test]
fn a_window_model_follows_the_rows() {
    let mut rows = Rows::new();
    let model = rows.window_model();
    assert_eq!(model.row_count(), 0);
    fill_rows(&[app("a", "1"), app("b", "2")], &mut rows);
    assert_eq!(model.row_count(), 2);
    assert_eq!(model.row_data(1), Some(("b".to_string(), "2".to_string())));
    assert_eq!(model.row_data(2), None);
}

#[test]
fn a_window_model_cannot_change_the_rows() {
    let rows = rows_of(&[app("a", "1")]);
    rows.window_model().set_row_data(0, ("x".to_string(), "y".to_string()));
    assert_eq!(shown(&rows), vec![app("a", "1")]);
}

#[test]
fn forgetting_leaves_the_rest_of_the_list() {
    let mut apps = vec![app("a", "1"), app("b", "2")];
    assert!(!forget_app(2, &mut apps));
    assert!(forget_app(0, &mut apps));
    assert_eq!(apps, vec![app("b", "2")]);
}

#[test]
fn adding_twice_adds_nothing_the_second_time() {
    let mut apps = Vec::new();
    let mut rows = Rows::new();
    let files = vec![file("C:\\a.exe"), file("C:\\b.lnk")];
    assert!(add_apps_from_paths(&files, &mut apps, &mut rows));
    assert!(!add_apps_from_paths(&files, &mut apps, &mut rows));
    assert_eq!(apps.len(), 2);
}

#[test]
fn distinct_paths_stay_distinct() {
    let mut apps = vec![app("a", "C:\\a.exe"), app("b", "C:\\b.exe")];
    let mut rows = rows_of(&apps);
    add_apps_from_paths(&[file("C:\\b.exe"), file("C:\\c.exe")], &mut apps, &mut rows);
    delete_app(0, &mut apps, &mut rows);
    let mut paths: Vec<String> = apps.iter().map(|a| a.path.clone()).collect();
    paths.dedup();
    assert_eq!(paths, vec!["C:\\b.exe", "C:\\c.exe"]);
}

#[test]
fn deletion_is_ignored_outside_the_rows() {
    let rows = rows_of(&[app("a", "C:\\a.exe")]);
    assert!(matches!(request_delete(-1, true, &rows), DeleteStep::Ignore));
    assert!(matches!(request_delete(1, false, &rows), DeleteStep::Ignore));
    assert!(matches!(request_delete(i32::MAX, false, &rows), DeleteStep::Ignore));
    assert!(matches!(request_delete(i32::MIN, true, &Rows::new()), DeleteStep::Ignore));
}

#[test]
fn deletion_asks_when_it_should() {
    let rows = rows_of(&[app("a", "C:\\a.exe"), app("b", "C:\\b.exe")]);
    match request_delete(1, true, &rows) {
        DeleteStep::Confirm(question) => {
            assert_eq!(question, "bを一覧から削除してもよろしいですか？");
        }
        other => panic!("{:?}", other),
    }
    assert!(matches!(request_delete(1, false, &rows), DeleteStep::Remove));
}

#[test]
fn deletion_takes_the_same_place_out_of_both() {
    let mut apps = vec![app("a", "1"), app("b", "2"), app("c", "3")];
    let mut rows = rows_of(&apps);
    assert!(delete_app(1, &mut apps, &mut rows));
    assert_eq!(apps, vec![app("a", "1"), app("c", "3")]);
    assert_eq!(shown(&rows), apps);
}

#[test]
fn deletion_spares_a_list_that_is_shorter_than_the_rows() {
    let mut apps = vec![app("a", "1")];
    let mut rows = rows_of(&[app("a", "1"), app("b", "2")]);
    assert!(!delete_app(1, &mut apps, &mut rows));
    assert_eq!(apps, vec![app("a", "1")]);
    assert_eq!(shown(&rows), vec![app("a", "1")]);
}

#[test]
fn deleting_a_missing_row_changes_nothing() {
    let mut apps = vec![app("a", "1"), app("b", "2")];
    let mut rows = rows_of(&[app("a", "1")]);
    assert_eq!(delete_row(1, &mut apps, &mut rows), None);
    assert_eq!(delete_row(-1, &mut apps, &mut rows), None);
    assert_eq!(apps.len(), 2);
    assert_eq!(rows.window_model().row_count(), 1);
    assert_eq!(delete_row(0, &mut apps, &mut rows), Some(true));
    assert_eq!(apps, vec![app("b", "2")]);
    assert_eq!(rows.window_model().row_count(), 0);
}

#[test]
fn deleting_without_rows_keeps_the_list() {
    let mut apps = vec![app("a", "1")];
    let mut rows = Rows::new();
    assert_eq!(delete_row(0, &mut apps, &mut rows), None);
    assert_eq!(apps, vec![app("a", "1")]);
}

#[test]
fn deleting_undoes_adding() {
    let before = vec![app("a", "C:\\a.exe")];
    let mut apps = before.clone();
    let mut rows = rows_of(&apps);
    add_apps_from_paths(&[file("C:\\b.exe")], &mut apps, &mut rows);
    delete_app(1, &mut apps, &mut rows);
    assert_eq!(apps, before);
    assert_eq!(shown(&rows), before);
}

#[test]
fn what_was_deleted_can_be_added_again() {
    let mut apps = vec![app("a", "C:\\a.exe"), app("b", "C:\\b.exe")];
    let mut rows = rows_of(&apps);
    delete_app(0, &mut apps, &mut rows);
    assert!(add_apps_from_paths(&[file("C:\\a.exe")], &mut apps, &mut rows));
    assert_eq!(apps, vec![app("b", "C:\\b.exe"), app("a", "C:\\a.exe")]);
}

#[test]
fn lists_are_compared_by_name_and_path() {
    let a = vec![app("a", "1"), app("b", "2")];
    assert!(same_apps(&a, &a.clone()));
    assert!(!same_apps(&a, &a[..1]));
    assert!(!same_apps(&a, &[app("a", "1"), app("x", "2")]));
    assert!(!same_apps(&a, &[app("a", "1"), app("b", "x")]));
    assert!(same_apps(&[], &[]));
}

#[test]
fn an_unreadable_file_leaves_the_list() {
    let mut apps = vec![app("a", "1")];
    assert_eq!(reload_apps(&mut apps, None), None);
    assert_eq!(apps, vec![app("a", "1")]);
}

#[test]
fn an_unchanged_file_leaves_the_window() {
    let mut apps = vec![app("a", "1")];
    assert_eq!(reload_apps(&mut apps, Some(vec![app("a", "1")])), None);
    assert_eq!(apps, vec![app("a", "1")]);
}

#[test]
fn a_changed_file_replaces_the_list_and_the_rows() {
    let mut apps = vec![app("a", "1")];
    let mut rows = rows_of(&apps);
    let read = vec![app("b", "2"), app("a", "1")];
    let to_show = reload_apps(&mut apps, Some(read.clone())).unwrap();
    assert_eq!(apps, read);
    show_apps(&to_show, &mut rows);
    assert_eq!(shown(&rows), read);
}

#[test]
fn rows_are_filled_behind_what_is_there() {
    let mut rows = rows_of(&[app("a", "1")]);
    fill_rows(&[app("b", "2")], &mut rows);
    assert_eq!(shown(&rows), vec![app("a", "1"), app("b", "2")]);
}

#[test]
fn the_window_shows_the_list_after_any_operations() {
    let mut apps = vec![app("a", "C:\\a.exe")];
    let mut rows = rows_of(&apps);
    add_apps_from_paths(&[file("C:\\b.exe"), file("C:\\a.exe")], &mut apps, &mut rows);
    assert_eq!(shown(&rows), apps);
    if let Some(list) = reload_apps(&mut apps, Some(vec![app("z", "9")])) {
        show_apps(&list, &mut rows);
    }
    assert_eq!(shown(&rows), apps);
    add_apps_from_paths(&[file("C:\\a.exe")], &mut apps, &mut rows);
    delete_row(0, &mut apps, &mut rows);
    assert_eq!(shown(&rows), apps);
    assert_eq!(apps, vec![app("a", "C:\\a.exe")]);
}
