//! Per-folder settings: walker ignore options, UI preferences, and the
//! schema-version rule.
use vstd::prelude::*;
use crate::scan::{WalkOptions, DEFAULT_MAX_DEPTH};

verus! {

/// Schema version written by this build.
pub const CURRENT_SETTINGS_VERSION: u32 = 1;

/// Name of the app-owned metadata directory at the folder root.
pub const FOLDER_METADATA_DIR: &'static str = ".sideromelane";

/// Name of the settings file inside the metadata directory.
pub const FOLDER_SETTINGS_FILE: &'static str = "settings.json";

/// Walker ignore configuration controlled by the user from the folder UI.
#[derive(Debug, Clone, Copy, PartialEq, Eq, Structural)]
pub struct IgnoreSettings {
    /// Whether `.gitignore` files should also be honored when walking.
    pub honor_gitignore: bool,
    /// Whether dotfiles and dotfolders are surfaced.
    pub include_dotfiles: bool,
}

impl Default for IgnoreSettings {
    fn default() -> (r: IgnoreSettings)
        ensures
            !r.honor_gitignore,
            !r.include_dotfiles,
    {
        IgnoreSettings { honor_gitignore: false, include_dotfiles: false }
    }
}

/// UI presentation preferences scoped to a single folder.
#[derive(Debug)]
pub struct UiSettings {
    /// Whether the editor soft-wraps long lines.
    pub editor_word_wrap: bool,
    /// Folder-relative paths whose tree node renders expanded.
    pub tree_expanded_paths: Vec<String>,
}

impl Default for UiSettings {
    fn default() -> (r: UiSettings)
        ensures
            r.editor_word_wrap,
            r.tree_expanded_paths@.len() == 0,
    {
        UiSettings { editor_word_wrap: true, tree_expanded_paths: Vec::new() }
    }
}

/// The walk options for a folder with these ignore settings: dotfiles and
/// `.gitignore` as the settings say, the other options at their defaults.
pub fn walk_options_for(ignore: &IgnoreSettings) -> (r: WalkOptions)
    ensures
        !r.follow_symlinks,
        r.include_dotfiles == ignore.include_dotfiles,
        r.honor_gitignore == ignore.honor_gitignore,
        r.extra_ignore_files@.len() == 0,
        r.max_depth == Some(DEFAULT_MAX_DEPTH),
        r.excluded_globs@.len() == 0,
{
    WalkOptions {
        follow_symlinks: false,
        include_dotfiles: ignore.include_dotfiles,
        honor_gitignore: ignore.honor_gitignore,
        extra_ignore_files: Vec::new(),
        max_depth: Some(DEFAULT_MAX_DEPTH),
        excluded_globs: Vec::new(),
    }
}

/// Checks the schema version of loaded settings: a version newer than this
/// build supports is refused with `(found, supported)`.
pub fn check_settings_version(found: u32) -> (r: Result<(), (u32, u32)>)
    ensures
        found <= CURRENT_SETTINGS_VERSION <==> r is Ok,
        r matches Err(e) ==> e == (found, CURRENT_SETTINGS_VERSION),
{
    if found > CURRENT_SETTINGS_VERSION {
        Err((found, CURRENT_SETTINGS_VERSION))
    } else {
        Ok(())
    }
}

} // verus!
