//! The settings of the launcher.

use vstd::prelude::*;

verus! {

/// What the user can set.
#[derive(Clone, Copy, Debug, PartialEq, Eq, Structural)]
pub struct Settings {
    /// Ask before an application leaves the list.
    pub confirm_on_delete: bool,
    /// Show the buttons that change the list.
    pub show_edit_buttons: bool,
    /// The size in which names are written.
    pub app_name_font_size: i32,
    /// The size in which paths are written.
    pub app_path_font_size: i32,
}

/// The settings of a launcher that was never set up.
pub open spec fn default_settings() -> Settings {
    Settings {
        confirm_on_delete: true,
        show_edit_buttons: false,
        app_name_font_size: 14,
        app_path_font_size: 11,
    }
}

impl Default for Settings {
    fn default() -> (r: Self)
        ensures
            r == default_settings(),
            r.confirm_on_delete && !r.show_edit_buttons,
            r.app_name_font_size == 14 && r.app_path_font_size == 11,
    {
        Settings {
            confirm_on_delete: true,
            show_edit_buttons: false,
            app_name_font_size: 14,
            app_path_font_size: 11,
        }
    }
}

/// What was found in place of the settings file.
#[derive(Clone, Copy, Debug, PartialEq, Eq, Structural)]
pub enum SettingsFile {
    /// The file could not be read.
    Unreadable,
    /// The file was read and holds no settings.
    Malformed,
    /// The file holds these settings.
    Parsed(Settings),
}

/// The settings to use, and whether they have to be written to the file. The file decides where it
/// holds settings. Otherwise the defaults are used; they are written where there was no file to
/// read, and a file with anything else in it is left alone.
pub fn load_settings(file: SettingsFile) -> (r: (Settings, bool))
    ensures
        r.0 == (match file {
            SettingsFile::Parsed(settings) => settings,
            _ => default_settings(),
        }),
        r.1 == (file == SettingsFile::Unreadable),
{
    match file {
        SettingsFile::Parsed(settings) => (settings, false),
        SettingsFile::Malformed => (Settings::default(), false),
        SettingsFile::Unreadable => (Settings::default(), true),
    }
}

} // verus!
