//! Open-note buffers and the decision taken on a watched file-system event:
//! ignore it, treat it as our own write, reload a clean note, or raise a
//! conflict for a dirty one.
use vstd::prelude::*;
use vstd::string::*;
use crate::folder::NoteId;
use crate::path::{path_key, same_path};
use crate::text::utf8_bytes;
use crate::watcher::{WatchEvent, WatchKind};

verus! {

/// Maximum number of concurrent pending conflict modals.
pub const MAX_PENDING_CONFLICTS: usize = 32;

/// A note open in the workspace together with its editing state.
/// Times are milliseconds on a monotonic clock chosen by the caller.
#[derive(Debug)]
pub struct OpenNote {
    /// Identifier relative to the folder root.
    pub note_id: NoteId,
    /// Absolute path on disk.
    pub absolute_path: String,
    /// Current in-memory contents.
    pub source: String,
    /// Whether `source` has unsaved edits.
    pub dirty: bool,
    /// Last time `source` was edited.
    pub last_edit_at: u64,
}

impl OpenNote {
    /// Whether `other` is this note with only `source` and `dirty` possibly changed.
    pub open spec fn same_but_content(&self, other: &OpenNote) -> bool {
        &&& other.note_id.path() == self.note_id.path()
        &&& other.note_id.path_chars() == self.note_id.path_chars()
        &&& other.note_id.key() == self.note_id.key()
        &&& other.absolute_path == self.absolute_path
        &&& other.last_edit_at == self.last_edit_at
    }

    /// A copy of this note with new contents and dirty flag.
    pub fn with_content(&self, source: String, dirty: bool) -> (r: OpenNote)
        ensures
            self.same_but_content(&r),
            r.source == source,
            r.dirty == dirty,
    {
        OpenNote {
            note_id: self.note_id.clone(),
            absolute_path: self.absolute_path.clone(),
            source,
            dirty,
            last_edit_at: self.last_edit_at,
        }
    }
}

/// Outcome of classifying a watcher event against the open notes.
#[derive(Debug, PartialEq, Eq)]
pub enum WatchOutcome {
    /// Event kind is not modify-class.
    Ignored,
    /// Event arrived inside the self-write suppression window.
    Suppressed,
    /// Event path does not match any open note.
    UnknownPath,
    /// The note is dirty; a per-note conflict must be raised.
    Conflict(NoteId),
    /// The note is clean; `notes[index]` should be reloaded from disk.
    Reload {
        /// Index of the note to reload.
        index: usize,
    },
}

/// Position of the first entry of `s` whose key is the same path as `k`, at
/// or after `i`, or `-1`.
pub open spec fn first_key_from<V>(s: Seq<(String, V)>, k: Seq<u8>, i: int) -> int
    decreases s.len() - i,
{
    if i < 0 || i >= s.len() {
        -1
    } else if path_key(utf8_bytes(s[i].0@)) == path_key(k) {
        i
    } else {
        first_key_from(s, k, i + 1)
    }
}

/// Position of the first entry of `s` whose key is the same path as `k`, or
/// `-1`: a lookup in a map keyed by paths.
pub open spec fn first_key<V>(s: Seq<(String, V)>, k: Seq<u8>) -> int {
    first_key_from(s, k, 0)
}

proof fn lemma_first_key_from<V>(s: Seq<(String, V)>, k: Seq<u8>, i: int)
    requires
        0 <= i,
    ensures
        first_key_from(s, k, i) == -1 || (i <= first_key_from(s, k, i) < s.len() && path_key(
            utf8_bytes(s[first_key_from(s, k, i)].0@),
        ) == path_key(k)),
    decreases s.len() - i,
{
    if i < s.len() && path_key(utf8_bytes(s[i].0@)) != path_key(k) {
        lemma_first_key_from(s, k, i + 1);
    }
}

/// Looks a path up in a list of entries keyed by paths, as in a map keyed
/// by `Path`: keys match when they are the same path.
pub fn lookup_key<V: Copy>(s: &[(String, V)], k: &str) -> (r: Option<V>)
    ensures
        first_key(s@, k.spec_bytes()) == -1 <==> r is None,
        r matches Some(v) ==> v == s@[first_key(s@, k.spec_bytes())].1,
{
    proof {
        lemma_first_key_from(s@, k.spec_bytes(), 0);
    }
    let mut i: usize = 0;
    while i < s.len()
        invariant
            0 <= i <= s@.len(),
            first_key_from(s@, k.spec_bytes(), 0) == first_key_from(s@, k.spec_bytes(), i as int),
        decreases s@.len() - i,
    {
        if same_path(s[i].0.as_str(), k) {
            return Some(s[i].1);
        }
        i = i + 1;
    }
    None
}

/// Whether an event at `now` falls inside the suppression window that
/// follows a self-write stamped `stamp`.
pub open spec fn within_window(stamp: u64, now: u64, window: u64) -> bool {
    now >= stamp && now - stamp < window
}

/// Replaces `notes[index]` with the contents just read from disk: the note is
/// clean again, and its last-edit time is left as it was.
pub fn apply_reload(notes: &mut Vec<OpenNote>, index: usize, source: String)
    requires
        index < old(notes)@.len(),
    ensures
        final(notes)@.len() == old(notes)@.len(),
        forall|j: int| 0 <= j < old(notes)@.len() && j != index ==> final(notes)@[j] == old(notes)@[j],
        old(notes)@[index as int].same_but_content(&final(notes)@[index as int]),
        final(notes)@[index as int].source == source,
        !final(notes)@[index as int].dirty,
{
    let fresh = notes[index].with_content(source, false);
    notes.set(index, fresh);
}

/// Reloads `notes[index]` from disk as the watcher and the conflict window
/// do: the contents are replaced, the note is clean, and its last edit is
/// stamped `now`.
pub fn reload_note(notes: &mut Vec<OpenNote>, index: usize, source: String, now: u64)
    requires
        index < old(notes)@.len(),
    ensures
        final(notes)@.len() == old(notes)@.len(),
        forall|j: int| 0 <= j < old(notes)@.len() && j != index ==> final(notes)@[j] == old(notes)@[j],
        final(notes)@[index as int].note_id.path() == old(notes)@[index as int].note_id.path(),
        final(notes)@[index as int].note_id.path_chars() == old(notes)@[index as int].note_id.path_chars(),
        final(notes)@[index as int].note_id.key() == old(notes)@[index as int].note_id.key(),
        final(notes)@[index as int].absolute_path == old(notes)@[index as int].absolute_path,
        final(notes)@[index as int].source == source,
        !final(notes)@[index as int].dirty,
        final(notes)@[index as int].last_edit_at == now,
{
    let fresh = notes[index].with_content(source, false);
    let stamped = OpenNote {
        note_id: fresh.note_id,
        absolute_path: fresh.absolute_path,
        source: fresh.source,
        dirty: false,
        last_edit_at: now,
    };
    notes.set(index, stamped);
}

/// Decides what to do with a watcher event: ignore non-modify events,
/// suppress one inside `suppress_window` of our own last write to the path,
/// report an unknown path, raise a conflict for a dirty note, or reload a
/// clean one. `note_path_index` maps absolute paths to positions in `notes`;
/// `last_self_write_at` maps paths to the time of our last write.
pub fn classify_watch_event(
    event: &WatchEvent,
    notes: &[OpenNote],
    note_path_index: &[(String, usize)],
    last_self_write_at: &[(String, u64)],
    suppress_window: u64,
    now: u64,
) -> (r: WatchOutcome)
    requires
        forall|j: int| 0 <= j < note_path_index@.len() ==> note_path_index@[j].1 < notes@.len(),
    ensures
        ({
            let w = first_key(last_self_write_at@, utf8_bytes(event.path@));
            let p = first_key(note_path_index@, utf8_bytes(event.path@));
            if event.kind != WatchKind::Modify {
                r == WatchOutcome::Ignored
            } else if w != -1 && within_window(last_self_write_at@[w].1, now, suppress_window) {
                r == WatchOutcome::Suppressed
            } else if p == -1 {
                r == WatchOutcome::UnknownPath
            } else {
                let i = note_path_index@[p].1 as int;
                if notes@[i].dirty {
                    r matches WatchOutcome::Conflict(id) && id.path() == notes@[i].note_id.path()
                        && id.key() == notes@[i].note_id.key()
                } else {
                    r == WatchOutcome::Reload { index: i as usize }
                }
            }
        }),
{
    if event.kind != WatchKind::Modify {
        return WatchOutcome::Ignored;
    }
    match lookup_key(last_self_write_at, event.path.as_str()) {
        Some(stamp) => {
            if now >= stamp && now - stamp < suppress_window {
                return WatchOutcome::Suppressed;
            }
        },
        None => {},
    }
    proof {
        lemma_first_key_from(note_path_index@, utf8_bytes(event.path@), 0);
    }
    match lookup_key(note_path_index, event.path.as_str()) {
        None => WatchOutcome::UnknownPath,
        Some(index) => {
            if notes[index].dirty {
                WatchOutcome::Conflict(notes[index].note_id.clone())
            } else {
                WatchOutcome::Reload { index }
            }
        },
    }
}

} // verus!
