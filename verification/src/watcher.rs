//! File-system watch events, as the folder watcher reports them.
use vstd::prelude::*;

verus! {

/// Coarse classification of a watched file-system event.
#[derive(Debug, Clone, Copy, PartialEq, Eq, Structural)]
pub enum WatchKind {
    /// File contents (or metadata) were modified, created, or removed.
    Modify,
    /// Any other event category.
    Other,
}

/// A single debounced file-system event addressed at one path.
#[derive(Debug)]
pub struct WatchEvent {
    /// Absolute path of the file or directory the event refers to.
    pub path: String,
    /// Coarse event category.
    pub kind: WatchKind,
}

impl Clone for WatchEvent {
    fn clone(&self) -> (r: WatchEvent)
        ensures
            r == *self,
    {
        WatchEvent { path: self.path.clone(), kind: self.kind }
    }
}

} // verus!
