//! Domain logic of a local Markdown notes workspace: note parsing, link and
//! tag analysis, folder indexes, keyword search and the editor helpers.
use vstd::prelude::*;

pub mod text;
pub mod path;
pub mod folder;
pub mod note;
pub mod analysis;
pub mod index;
pub mod search;
pub mod asset;
pub mod outline;
pub mod wiki_link_popup;
pub mod editor;
pub mod graph_view;
pub mod state;
pub mod menu;
pub mod watcher;
pub mod conflict;
pub mod autosave;
pub mod scan;
pub mod settings;
pub mod indexer;
pub mod tree;
pub mod preview;
pub mod preferences;
pub mod typography;
pub mod workspace;
pub mod naming;

verus! {

/// Returns the current project name.
pub fn project_name() -> (name: &'static str)
    ensures
        name@ == "Sideromelane"@,
{
    "Sideromelane"
}

} // verus!
