//! Decisions of the background indexer worker. The worker holds the most
//! recently observed note set and the last walk; each command it receives
//! leads to one action (walk the folder, publish fresh indexes over the
//! current notes, or stop). The walking, reading and publishing are done by
//! the caller, which reports a walk's result back.
use vstd::prelude::*;
use crate::folder::NoteId;
use crate::scan::WalkOptions;

verus! {

broadcast use vstd::seq::group_seq_axioms;

/// A single note as discovered by the indexer worker.
#[derive(Debug)]
pub struct NoteRecord {
    /// Identifier relative to the folder root.
    pub note_id: NoteId,
    /// Absolute path on disk.
    pub absolute_path: String,
    /// File contents at the time of the read.
    pub source: String,
}

/// Whether two records hold the same note, path and contents.
pub open spec fn same_record(a: NoteRecord, b: NoteRecord) -> bool {
    &&& a.note_id.path() == b.note_id.path()
    &&& a.note_id.path_chars() == b.note_id.path_chars()
    &&& a.note_id.key() == b.note_id.key()
    &&& a.absolute_path == b.absolute_path
    &&& a.source == b.source
}

/// Whether two sequences of records agree record by record.
pub open spec fn same_records(a: Seq<NoteRecord>, b: Seq<NoteRecord>) -> bool {
    &&& a.len() == b.len()
    &&& forall|i: int| 0 <= i < a.len() ==> same_record(#[trigger] a[i], b[i])
}

impl NoteRecord {
    /// A copy of this record, with `absolute_path` and `source` possibly replaced.
    fn rebuilt(&self, absolute_path: String, source: String) -> (r: NoteRecord)
        ensures
            r.note_id.path() == self.note_id.path(),
            r.note_id.path_chars() == self.note_id.path_chars(),
            r.note_id.key() == self.note_id.key(),
            r.absolute_path == absolute_path,
            r.source == source,
    {
        NoteRecord { note_id: self.note_id.clone(), absolute_path, source }
    }

    /// A copy of this record.
    pub fn duplicate(&self) -> (r: NoteRecord)
        ensures
            same_record(r, *self),
    {
        self.rebuilt(self.absolute_path.clone(), self.source.clone())
    }
}

/// Copies a list of records.
pub fn duplicate_records(records: &[NoteRecord]) -> (r: Vec<NoteRecord>)
    ensures
        same_records(r@, records@),
{
    let mut out: Vec<NoteRecord> = Vec::new();
    let mut i: usize = 0;
    while i < records.len()
        invariant
            0 <= i <= records@.len(),
            out@.len() == i,
            forall|k: int| 0 <= k < i ==> same_record(#[trigger] out@[k], records@[k]),
        decreases records@.len() - i,
    {
        out.push(records[i].duplicate());
        i = i + 1;
    }
    out
}

/// Commands accepted by the worker.
#[derive(Debug)]
pub enum IndexerCommand {
    /// Re-discover and re-parse every Markdown file under `root`.
    Rescan {
        /// Folder root to scan.
        root: String,
        /// Walk options sourced from the folder's persisted settings.
        options: WalkOptions,
    },
    /// Replace a single note's source and rebuild indexes.
    NoteChanged {
        /// Identity of the note that changed.
        note_id: NoteId,
        /// New full-source contents of the note.
        source: String,
    },
    /// Stop the worker and exit cleanly.
    Shutdown,
}

/// What the worker must do next.
#[derive(Debug)]
pub enum IndexerAction {
    /// Walk `root` and read its notes, then report with
    /// [`IndexerState::on_rescanned`].
    Rescan {
        /// Folder root to walk.
        root: String,
        /// Walk options.
        options: WalkOptions,
    },
    /// Walk `root` again to find a note not seen yet, then report with
    /// [`IndexerState::on_rediscovered`].
    Rediscover {
        /// Folder root to walk.
        root: String,
        /// Walk options.
        options: WalkOptions,
        /// The changed note.
        note_id: NoteId,
        /// Its new contents.
        source: String,
    },
    /// Rebuild the indexes over the current notes and publish them.
    Publish,
    /// Stop the worker.
    Stop,
}

/// Position of the first record of `rs` for note `key`, at or after `i`, or `-1`.
pub open spec fn first_record_from(rs: Seq<NoteRecord>, key: Seq<Seq<u8>>, i: int) -> int
    decreases rs.len() - i,
{
    if i < 0 || i >= rs.len() {
        -1
    } else if rs[i].note_id.key() == key {
        i
    } else {
        first_record_from(rs, key, i + 1)
    }
}

/// Position of the first record of `rs` for note `key`, or `-1`.
pub open spec fn first_record(rs: Seq<NoteRecord>, key: Seq<Seq<u8>>) -> int {
    first_record_from(rs, key, 0)
}

/// Position of the last record of `rs` for note `key`, or `-1`.
pub open spec fn last_record(rs: Seq<NoteRecord>, key: Seq<Seq<u8>>) -> int
    decreases rs.len(),
{
    if rs.len() == 0 {
        -1
    } else if rs.last().note_id.key() == key {
        rs.len() - 1
    } else {
        last_record(rs.drop_last(), key)
    }
}

proof fn lemma_first_record_from(rs: Seq<NoteRecord>, key: Seq<Seq<u8>>, i: int)
    requires
        0 <= i,
    ensures
        first_record_from(rs, key, i) == -1 || (i <= first_record_from(rs, key, i) < rs.len()
            && rs[first_record_from(rs, key, i)].note_id.key() == key),
    decreases rs.len() - i,
{
    if i < rs.len() && rs[i].note_id.key() != key {
        lemma_first_record_from(rs, key, i + 1);
    }
}

proof fn lemma_last_record(rs: Seq<NoteRecord>, key: Seq<Seq<u8>>)
    ensures
        last_record(rs, key) == -1 || (0 <= last_record(rs, key) < rs.len()
            && rs[last_record(rs, key)].note_id.key() == key),
        last_record(rs, key) == -1 ==> forall|j: int| 0 <= j < rs.len() ==> rs[j].note_id.key() != key,
    decreases rs.len(),
{
    if rs.len() > 0 && rs.last().note_id.key() != key {
        lemma_last_record(rs.drop_last(), key);
        assert forall|j: int| 0 <= j < rs.len() - 1 implies rs[j] == rs.drop_last()[j] by {}
    }
}

/// `rs` with the contents of the first record for note `key` replaced.
pub open spec fn with_source(rs: Seq<NoteRecord>, key: Seq<Seq<u8>>, source: String, r: Seq<NoteRecord>) -> bool {
    let f = first_record(rs, key);
    &&& r.len() == rs.len()
    &&& forall|i: int| 0 <= i < rs.len() && i != f ==> same_record(#[trigger] r[i], rs[i])
    &&& f != -1 ==> {
        &&& r[f].note_id.path() == rs[f].note_id.path()
        &&& r[f].note_id.path_chars() == rs[f].note_id.path_chars()
        &&& r[f].note_id.key() == rs[f].note_id.key()
        &&& r[f].absolute_path == rs[f].absolute_path
        &&& r[f].source == source
    }
}

/// Whether fresh record `i` repeats the note of an earlier fresh record.
pub open spec fn seen_before(fresh: Seq<NoteRecord>, i: int) -> bool {
    exists|k: int| 0 <= k < i && fresh[k].note_id.key() == fresh[i].note_id.key()
}

/// The merge of a fresh discovery with the records held so far, one per fresh
/// record: a note already held keeps its held contents and takes the fresh
/// path (a held note that occurs twice counts by its last record, and only the
/// first fresh record of a note takes it); any other fresh record is used as
/// it is. Held notes that were not discovered again are dropped.
pub open spec fn merged_record(held: Seq<NoteRecord>, fresh: Seq<NoteRecord>, i: int, m: NoteRecord) -> bool {
    let l = last_record(held, fresh[i].note_id.key());
    if !seen_before(fresh, i) && l != -1 {
        &&& m.note_id.path() == held[l].note_id.path()
        &&& m.note_id.path_chars() == held[l].note_id.path_chars()
        &&& m.note_id.key() == held[l].note_id.key()
        &&& m.absolute_path == fresh[i].absolute_path
        &&& m.source == held[l].source
    } else {
        same_record(m, fresh[i])
    }
}

/// Merges a fresh discovery with the records held so far.
pub fn merge_discovered(held: &[NoteRecord], fresh: &[NoteRecord]) -> (r: Vec<NoteRecord>)
    ensures
        r@.len() == fresh@.len(),
        forall|i: int| 0 <= i < fresh@.len() ==> merged_record(held@, fresh@, i, #[trigger] r@[i]),
{
    let mut out: Vec<NoteRecord> = Vec::new();
    let mut i: usize = 0;
    while i < fresh.len()
        invariant
            0 <= i <= fresh@.len(),
            out@.len() == i,
            forall|k: int| 0 <= k < i ==> merged_record(held@, fresh@, k, #[trigger] out@[k]),
        decreases fresh@.len() - i,
    {
        let f = &fresh[i];
        let mut seen = false;
        let mut k: usize = 0;
        while k < i && !seen
            invariant
                0 <= k <= i < fresh@.len(),
                *f == fresh@[i as int],
                seen ==> seen_before(fresh@, i as int),
                !seen ==> forall|x: int| 0 <= x < k ==> fresh@[x].note_id.key() != fresh@[i as int].note_id.key(),
            decreases i - k,
        {
            if fresh[k].note_id.same(&f.note_id) {
                seen = true;
            }
            k = k + 1;
        }
        proof {
            if !seen && seen_before(fresh@, i as int) {
                let x = choose|x: int| 0 <= x < i && fresh@[x].note_id.key() == fresh@[i as int].note_id.key();
            }
        }
        let mut last: Option<usize> = None;
        if !seen {
            let mut j: usize = held.len();
            assert(held@.take(j as int) =~= held@);
            while j > 0 && last.is_none()
                invariant
                    0 <= j <= held@.len(),
                    i < fresh@.len(),
                    *f == fresh@[i as int],
                    last is None ==> last_record(held@, f.note_id.key()) == last_record(
                        held@.take(j as int),
                        f.note_id.key(),
                    ),
                    last matches Some(l) ==> l < held@.len() && last_record(held@, f.note_id.key()) == l,
                decreases j + (if last is None {
                    1int
                } else {
                    0int
                }),
            {
                assert(held@.take(j as int).drop_last() =~= held@.take(j - 1));
                assert(held@.take(j as int).last() == held@[j - 1]);
                if held[j - 1].note_id.same(&f.note_id) {
                    last = Some(j - 1);
                } else {
                    j = j - 1;
                }
            }
            proof {
                if last is None {
                    assert(held@.take(j as int) =~= Seq::<NoteRecord>::empty());
                }
            }
        }
        match last {
            Some(l) => {
                out.push(held[l].rebuilt(f.absolute_path.clone(), held[l].source.clone()));
            },
            None => {
                out.push(f.duplicate());
            },
        }
        i = i + 1;
    }
    out
}

/// Replaces the contents of the first record for `note_id`, if any.
fn set_source(records: &mut Vec<NoteRecord>, note_id: &NoteId, source: String) -> (found: bool)
    ensures
        with_source(old(records)@, note_id.key(), source, final(records)@),
        found == (first_record(old(records)@, note_id.key()) != -1),
{
    proof {
        lemma_first_record_from(records@, note_id.key(), 0);
    }
    let mut i: usize = 0;
    while i < records.len()
        invariant
            0 <= i <= records@.len(),
            records@ == old(records)@,
            first_record_from(records@, note_id.key(), 0) == first_record_from(records@, note_id.key(), i as int),
        decreases records@.len() - i,
    {
        if records[i].note_id.same(note_id) {
            assert(first_record_from(records@, note_id.key(), i as int) == i);
            let fresh = records[i].rebuilt(records[i].absolute_path.clone(), source);
            records.set(i, fresh);
            assert forall|k: int| 0 <= k < old(records)@.len() && k != i implies same_record(
                #[trigger] records@[k],
                old(records)@[k],
            ) by {}
            return true;
        }
        i = i + 1;
    }
    assert forall|k: int| 0 <= k < records@.len() implies same_record(#[trigger] records@[k], records@[k]) by {}
    false
}

/// The state of the indexer worker.
#[derive(Debug)]
pub struct IndexerState {
    current_notes: Vec<NoteRecord>,
    last_walk: Option<(String, WalkOptions)>,
}

impl IndexerState {
    /// The notes the worker holds.
    pub closed spec fn notes_v(&self) -> Seq<NoteRecord> {
        self.current_notes@
    }

    /// The root and options of the last successful walk.
    pub closed spec fn walk_v(&self) -> Option<(String, WalkOptions)> {
        self.last_walk
    }

    /// A worker that has seen no folder yet.
    pub fn new() -> (r: IndexerState)
        ensures
            r.notes_v().len() == 0,
            r.walk_v() is None,
    {
        IndexerState { current_notes: Vec::new(), last_walk: None }
    }

    /// The notes the worker holds.
    pub fn notes(&self) -> (r: &[NoteRecord])
        ensures
            r@ == self.notes_v(),
    {
        self.current_notes.as_slice()
    }

    /// Decides what a command asks for. A rescan asks for a walk; a change
    /// to a held note updates it and asks for a publish; a change to an
    /// unknown note asks for a fresh walk when a folder was walked before,
    /// else for a publish; a shutdown asks the worker to stop.
    pub fn handle_command(&mut self, command: IndexerCommand) -> (r: IndexerAction)
        ensures
            match command {
                IndexerCommand::Rescan { root, options } => {
                    &&& *final(self) == *old(self)
                    &&& r matches IndexerAction::Rescan { root: r_root, options: r_options } && r_root
                        == root && r_options == options
                },
                IndexerCommand::NoteChanged { note_id, source } => {
                    let known = first_record(old(self).notes_v(), note_id.key()) != -1;
                    &&& final(self).walk_v() == old(self).walk_v()
                    &&& with_source(old(self).notes_v(), note_id.key(), source, final(self).notes_v())
                    &&& known ==> r is Publish
                    &&& !known ==> (match old(self).walk_v() {
                        None => r is Publish,
                        Some(w) => r matches IndexerAction::Rediscover {
                            root: r_root,
                            options: r_options,
                            note_id: r_id,
                            source: r_source,
                        } && r_root == w.0 && w.1.same(&r_options) && r_id == note_id && r_source == source,
                    })
                },
                IndexerCommand::Shutdown => *final(self) == *old(self) && r is Stop,
            },
    {
        match command {
            IndexerCommand::Rescan { root, options } => IndexerAction::Rescan { root, options },
            IndexerCommand::NoteChanged { note_id, source } => {
                let ghost src = source;
                if self.held(&note_id) {
                    let found = set_source(&mut self.current_notes, &note_id, source);
                    return IndexerAction::Publish;
                }
                proof {
                    assert forall|k: int| 0 <= k < self.current_notes@.len() implies same_record(
                        #[trigger] self.current_notes@[k],
                        self.current_notes@[k],
                    ) by {}
                }
                match &self.last_walk {
                    None => IndexerAction::Publish,
                    Some(w) => IndexerAction::Rediscover {
                        root: w.0.clone(),
                        options: w.1.clone(),
                        note_id,
                        source,
                    },
                }
            },
            IndexerCommand::Shutdown => IndexerAction::Stop,
        }
    }

    /// Whether the worker holds a record for `note_id`.
    fn held(&self, note_id: &NoteId) -> (r: bool)
        ensures
            r == (first_record(self.notes_v(), note_id.key()) != -1),
    {
        proof {
            lemma_first_record_from(self.current_notes@, note_id.key(), 0);
        }
        let mut i: usize = 0;
        while i < self.current_notes.len()
            invariant
                0 <= i <= self.current_notes@.len(),
                first_record_from(self.current_notes@, note_id.key(), 0) == first_record_from(
                    self.current_notes@,
                    note_id.key(),
                    i as int,
                ),
            decreases self.current_notes@.len() - i,
        {
            if self.current_notes[i].note_id.same(note_id) {
                return true;
            }
            i = i + 1;
        }
        false
    }

    /// Takes in the result of the walk a rescan asked for. On success the
    /// discovered notes replace the held ones and the walk is remembered;
    /// the caller publishes them and then fresh indexes. On failure nothing
    /// changes and the error is handed back for the caller to report.
    pub fn on_rescanned(&mut self, root: String, options: WalkOptions, discovered: Result<Vec<NoteRecord>, String>) -> (r: Result<(), String>)
        ensures
            match discovered {
                Ok(notes) => r is Ok && final(self).notes_v() == notes@ && final(self).walk_v() == Some((root, options)),
                Err(message) => r == Err::<(), String>(message) && *final(self) == *old(self),
            },
    {
        match discovered {
            Ok(notes) => {
                self.current_notes = notes;
                self.last_walk = Some((root, options));
                Ok(())
            },
            Err(message) => Err(message),
        }
    }

    /// Takes in the result of the walk a change to an unknown note asked
    /// for. On success the fresh discovery is merged with the held notes
    /// (see [`merged_record`]) and the changed note, if found, takes its new
    /// contents; the caller then publishes fresh indexes. On failure nothing
    /// changes and the error is handed back for the caller to report.
    pub fn on_rediscovered(
        &mut self,
        note_id: &NoteId,
        source: String,
        fresh: Result<Vec<NoteRecord>, String>,
    ) -> (r: Result<(), String>)
        ensures
            match fresh {
                Ok(f) => {
                    &&& r is Ok
                    &&& final(self).walk_v() == old(self).walk_v()
                    &&& exists|m: Seq<NoteRecord>| #![trigger m.len()] {
                        &&& m.len() == f@.len()
                        &&& (forall|i: int| 0 <= i < f@.len() ==> merged_record(old(self).notes_v(), f@, i, #[trigger] m[i]))
                        &&& with_source(m, note_id.key(), source, final(self).notes_v())
                    }
                },
                Err(message) => r == Err::<(), String>(message) && *final(self) == *old(self),
            },
    {
        match fresh {
            Ok(f) => {
                let mut merged = merge_discovered(&self.current_notes, &f);
                let ghost m = merged@;
                let found = set_source(&mut merged, note_id, source);
                self.current_notes = merged;
                assert(m.len() == f@.len());
                Ok(())
            },
            Err(message) => Err(message),
        }
    }
}

} // verus!
