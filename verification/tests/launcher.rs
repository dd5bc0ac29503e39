use app_launcher::data_files::{concerns_file, get_data_path, watch_dir};
use app_launcher::dnd::{DndHandler, EventWindow};
use app_launcher::launch::{launch_dir, launch_failure, TimerAction, Toast};
use app_launcher::settings::{load_settings, Settings, SettingsFile};
use app_launcher::utf16::encode;

fn program(path: &str) -> Option<Vec<u16>> {
    Some(encode(path))
}

#[test]
fn default_settings_are_cautious() {
    let settings = Settings::default();
    assert!(settings.confirm_on_delete);
    assert!(!settings.show_edit_buttons);
    assert_eq!(settings.app_name_font_size, 14);
    assert_eq!(settings.app_path_font_size, 11);
}

#[test]
fn settings_come_from_the_file() {
    let settings = Settings {
        confirm_on_delete: false,
        show_edit_buttons: true,
        app_name_font_size: 20,
        app_path_font_size: -1,
    };
    assert_eq!(load_settings(SettingsFile::Parsed(settings)), (settings, false));
}

#[test]
fn missing_settings_are_written_and_malformed_ones_left() {
    assert_eq!(load_settings(SettingsFile::Unreadable), (Settings::default(), true));
    assert_eq!(load_settings(SettingsFile::Malformed), (Settings::default(), false));
}

#[test]
fn data_files_lie_beside_the_program() {
    let exe = program("C:\\Apps\\launcher.exe");
    assert_eq!(get_data_path(false, &exe, "apps.json"), encode("C:\\Apps\\apps.json"));
    assert_eq!(get_data_path(true, &exe, "apps.json"), encode("apps.json"));
    assert_eq!(get_data_path(false, &None, "settings.json"), encode("settings.json"));
    assert_eq!(get_data_path(false, &program("C:\\"), "apps.json"), encode("apps.json"));
    assert_eq!(get_data_path(false, &program("l.exe"), "apps.json"), encode("apps.json"));
}

#[test]
fn the_directory_of_the_file_is_watched() {
    assert_eq!(watch_dir(&encode("C:\\Apps\\apps.json")), encode("C:\\Apps"));
    assert_eq!(watch_dir(&encode("apps.json")), encode("."));
    assert_eq!(watch_dir(&encode("")), encode("."));
    assert_eq!(watch_dir(&encode("C:\\")), encode("."));
}

#[test]
fn changes_to_other_files_do_not_concern() {
    let paths = |list: &[&str]| list.iter().map(|p| encode(p)).collect::<Vec<Vec<u16>>>();
    assert!(concerns_file(&paths(&["C:\\x", "C:\\Apps\\apps.json"]), "apps.json"));
    assert!(concerns_file(&paths(&["apps.json"]), "apps.json"));
    assert!(!concerns_file(&paths(&["C:\\Apps\\Apps.json"]), "apps.json"));
    assert!(!concerns_file(&paths(&["C:\\myapps.json"]), "apps.json"));
    assert!(!concerns_file(&paths(&["C:\\apps.json\\x"]), "apps.json"));
    assert!(!concerns_file(&[], "apps.json"));
}

#[test]
fn the_launcher_notices_its_own_file() {
    for exe in ["C:\\Apps\\launcher.exe", "D:\\l.exe", "\\\\srv\\share\\l.exe"] {
        let file = get_data_path(false, &program(exe), "apps.json");
        assert!(concerns_file(&[file.clone()], "apps.json"));
        assert_eq!(Some(watch_dir(&file)), launch_dir(exe));
    }
}

#[test]
fn data_files_lie_together_under_different_names() {
    for exe in ["C:\\Apps\\l.exe", "\\\\?\\C:\\a\\\\l.exe", "l.exe", "C:\\"] {
        let apps = get_data_path(false, &program(exe), "apps.json");
        let settings = get_data_path(false, &program(exe), "settings.json");
        assert_eq!(watch_dir(&apps), watch_dir(&settings));
        assert_ne!(apps, settings);
        assert_eq!(apps, get_data_path(false, &program(exe), "apps.json"));
        assert!(concerns_file(&[apps], "apps.json"));
        assert!(concerns_file(&[settings], "settings.json"));
    }
    let lost = get_data_path(false, &program("\\\\a\\\\b"), "apps.json");
    assert!(!concerns_file(&[lost], "apps.json"));
}

#[test]
fn applications_run_in_their_own_directory() {
    assert_eq!(launch_dir("C:\\Games\\chess.exe"), program("C:\\Games"));
    assert_eq!(launch_dir("chess.exe"), program(""));
    assert_eq!(launch_dir("C:\\"), None);
}

#[test]
fn failures_name_the_path_and_the_reason() {
    assert_eq!(
        launch_failure("C:\\a.exe", "not found"),
        "C:\\a.exeを起動できませんでした: not found"
    );
}

#[test]
fn a_notice_goes_when_its_time_is_up() {
    let mut toast = Toast::new();
    assert_eq!(toast.text(), "");
    assert_eq!(toast.show("first"), TimerAction::Start(5));
    assert_eq!(toast.show("second"), TimerAction::Start(5));
    assert_eq!(toast.text(), "second");
    assert_eq!(toast.expire(), TimerAction::Keep);
    assert_eq!(toast.text(), "");
}

#[test]
fn closing_a_notice_stops_its_timer() {
    let mut toast = Toast::new();
    toast.show("message");
    assert_eq!(toast.close(), TimerAction::Stop);
    assert_eq!(toast.text(), "");
}

#[test]
fn the_title_bar_is_seen_to_once() {
    let mut handler = DndHandler::new();
    assert!(!handler.window_event(EventWindow::Absent, None).set_theme);
    assert!(handler.window_event(EventWindow::Native, None).set_theme);
    assert!(!handler.window_event(EventWindow::Native, None).set_theme);

    let mut other = DndHandler::new();
    assert!(!other.window_event(EventWindow::Other, None).set_theme);
    assert!(!other.window_event(EventWindow::Native, None).set_theme);
}

#[test]
fn dropped_files_are_added() {
    let mut handler = DndHandler::new();
    let actions = handler.window_event(EventWindow::Absent, Some(encode("C:\\a.exe")));
    assert_eq!(actions.add_file, Some(encode("C:\\a.exe")));
    assert_eq!(handler.window_event(EventWindow::Absent, None).add_file, None);
}
