//! The persisted application settings and the theme catalog. Reading and
//! writing the settings file is the unverified caller's job; the engine
//! only defines the values and their defaults.

use vstd::prelude::*;

verus! {

/// The selectable interface themes.
#[derive(Debug, PartialEq, Eq, Structural, Clone, Copy)]
pub enum AppTheme {
    Light,
    Dark,
    NightBlue,
    Sepia,
    Forest,
}

impl Default for AppTheme {
    fn default() -> (r: Self)
        ensures
            r == AppTheme::Dark,
    {
        AppTheme::Dark
    }
}

/// The application settings. Paths are kept as plain strings; the caller
/// turns them into filesystem paths. The per-package switches are a list
/// of (file name, enabled) pairs.
#[derive(Debug)]
pub struct AppConfig {
    pub main_mo_file: Option<String>,
    pub mods_directory: Option<String>,
    pub output_directory: Option<String>,
    pub theme: AppTheme,
    pub dark_mode: bool,
    pub auto_batch: bool,
    pub auto_close: bool,
    pub show_logs: bool,
    pub saved_mods: Vec<(String, bool)>,
    pub ignore_main_mo_entries: bool,
}

impl Default for AppConfig {
    fn default() -> (r: Self)
        ensures
            r.main_mo_file is None,
            r.mods_directory is None,
            r.output_directory is None,
            r.theme == AppTheme::Dark,
            r.dark_mode == true,
            r.auto_batch == false,
            r.auto_close == false,
            r.show_logs == true,
            r.saved_mods@.len() == 0,
            r.ignore_main_mo_entries == false,
    {
        AppConfig {
            main_mo_file: None,
            mods_directory: None,
            output_directory: None,
            theme: AppTheme::Dark,
            dark_mode: true,
            auto_batch: false,
            auto_close: false,
            show_logs: true,
            saved_mods: Vec::new(),
            ignore_main_mo_entries: false,
        }
    }
}

/// Names the themes; what each one looks like is the window toolkit's
/// business and stays with the caller.
pub struct ThemeManager;

impl ThemeManager {
    /// The user-facing theme names, paired with their theme values.
    pub fn get_theme_names() -> (r: Vec<(&'static str, AppTheme)>)
        ensures
            r@.len() == 5,
            r@[0].0@ == "\u{4eae}\u{8272}\u{4e3b}\u{9898}"@ && r@[0].1 == AppTheme::Light,
            r@[1].0@ == "\u{6697}\u{9ed1}\u{4e3b}\u{9898}"@ && r@[1].1 == AppTheme::Dark,
            r@[2].0@ == "\u{591c}\u{95f4}\u{84dd}"@ && r@[2].1 == AppTheme::NightBlue,
            r@[3].0@ == "\u{62a4}\u{773c}\u{6a21}\u{5f0f}"@ && r@[3].1 == AppTheme::Sepia,
            r@[4].0@ == "\u{68ee}\u{6797}\u{7eff}"@ && r@[4].1 == AppTheme::Forest,
{
        let mut r: Vec<(&'static str, AppTheme)> = Vec::new();
        r.push(("\u{4eae}\u{8272}\u{4e3b}\u{9898}", AppTheme::Light));
        r.push(("\u{6697}\u{9ed1}\u{4e3b}\u{9898}", AppTheme::Dark));
        r.push(("\u{591c}\u{95f4}\u{84dd}", AppTheme::NightBlue));
        r.push(("\u{62a4}\u{773c}\u{6a21}\u{5f0f}", AppTheme::Sepia));
        r.push(("\u{68ee}\u{6797}\u{7eff}", AppTheme::Forest));
        r
    }
}

} // verus!
