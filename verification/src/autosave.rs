//! Auto-save sweep: which dirty notes are due for a save, and how the
//! results of the writes update the open notes.
use vstd::prelude::*;
use crate::conflict::OpenNote;
use crate::folder::NoteId;

verus! {

broadcast use vstd::seq::group_seq_axioms;

/// Window, in milliseconds, after one of our own writes during which a
/// watcher event for the same path is taken to be that write.
pub const SELF_WRITE_SUPPRESS_WINDOW_MS: u64 = 200;

/// The auto-save debounce in milliseconds for a setting of `secs` seconds;
/// a setting of zero counts as one second.
pub fn auto_save_debounce_ms(secs: u32) -> (r: u64)
    ensures
        r == (if secs == 0 {
            1
        } else {
            secs
        }) * 1000,
{
    let s: u64 = if secs == 0 {
        1
    } else {
        secs as u64
    };
    s * 1000
}

/// Whether a note is due for an auto-save at `now`: it is dirty and its last
/// edit is at least `debounce` old (time never runs backwards).
pub open spec fn is_due(n: OpenNote, debounce: u64, now: u64) -> bool {
    &&& n.dirty
    &&& (if now >= n.last_edit_at {
        now - n.last_edit_at
    } else {
        0
    }) >= debounce
}

/// The positions of the notes of `ns` that are due, in order.
pub open spec fn due_positions(ns: Seq<OpenNote>, debounce: u64, now: u64) -> Seq<usize>
    decreases ns.len(),
{
    if ns.len() == 0 {
        Seq::empty()
    } else if is_due(ns.last(), debounce, now) {
        due_positions(ns.drop_last(), debounce, now).push((ns.len() - 1) as usize)
    } else {
        due_positions(ns.drop_last(), debounce, now)
    }
}

/// Returns the positions of the notes due for an auto-save, in order.
pub fn due_for_auto_save(notes: &[OpenNote], debounce: u64, now: u64) -> (r: Vec<usize>)
    ensures
        r@ == due_positions(notes@, debounce, now),
{
    let mut out: Vec<usize> = Vec::new();
    let mut i: usize = 0;
    while i < notes.len()
        invariant
            0 <= i <= notes@.len(),
            out@ == due_positions(notes@.take(i as int), debounce, now),
        decreases notes@.len() - i,
    {
        let n = &notes[i];
        let elapsed: u64 = if now >= n.last_edit_at {
            now - n.last_edit_at
        } else {
            0
        };
        assert(notes@.take(i + 1).drop_last() =~= notes@.take(i as int));
        if n.dirty && elapsed >= debounce {
            out.push(i);
        }
        i = i + 1;
    }
    assert(notes@.take(i as int) =~= notes@);
    out
}

/// One successfully auto-saved note.
#[derive(Debug)]
pub struct AutoSaveOutcome {
    /// The saved note.
    pub note_id: NoteId,
    /// The contents written.
    pub source: String,
    /// Where they were written.
    pub absolute_path: String,
    /// The note's folder-relative path, for the status bar.
    pub relative: String,
}

/// Aggregated result of one auto-save sweep: the saved notes, and the first
/// failed write with the note's relative path.
#[derive(Debug)]
pub struct AutoSaveSweep<E> {
    /// The notes saved, in order.
    pub saved: Vec<AutoSaveOutcome>,
    /// The first failure, if any.
    pub first_error: Option<(String, E)>,
}

/// The note positions of the successful writes in `ws`, in order.
pub open spec fn ok_positions<E>(ws: Seq<(usize, Result<(), E>)>) -> Seq<usize>
    decreases ws.len(),
{
    if ws.len() == 0 {
        Seq::empty()
    } else if ws.last().1 is Ok {
        ok_positions(ws.drop_last()).push(ws.last().0)
    } else {
        ok_positions(ws.drop_last())
    }
}

/// Position in `ws` of the first failed write, or `-1`.
pub open spec fn first_failure<E>(ws: Seq<(usize, Result<(), E>)>) -> int
    decreases ws.len(),
{
    if ws.len() == 0 {
        -1
    } else if first_failure(ws.drop_last()) != -1 {
        first_failure(ws.drop_last())
    } else if ws.last().1 is Err {
        ws.len() - 1
    } else {
        -1
    }
}

/// Whether some write of `ws` to note `j` succeeded.
pub open spec fn saved_ok<E>(ws: Seq<(usize, Result<(), E>)>, j: int) -> bool {
    exists|k: int| 0 <= k < ws.len() && ws[k].0 == j && ws[k].1 is Ok
}

/// Whether `o` records note `n` as saved.
pub open spec fn outcome_of(o: AutoSaveOutcome, n: OpenNote) -> bool {
    &&& o.note_id.path() == n.note_id.path()
    &&& o.note_id.key() == n.note_id.key()
    &&& o.source == n.source
    &&& o.absolute_path == n.absolute_path
    &&& o.relative@ == n.note_id.path_chars()
}

proof fn lemma_due_positions(ns: Seq<OpenNote>, debounce: u64, now: u64)
    requires
        ns.len() <= usize::MAX,
    ensures
        forall|k: int|
            0 <= k < due_positions(ns, debounce, now).len() ==> (#[trigger] due_positions(ns, debounce, now)[k])
                < ns.len() && is_due(ns[due_positions(ns, debounce, now)[k] as int], debounce, now),
        forall|a: int, b: int|
            0 <= a < b < due_positions(ns, debounce, now).len() ==> (#[trigger] due_positions(ns, debounce, now)[a])
                < (#[trigger] due_positions(ns, debounce, now)[b]),
        forall|j: int|
            0 <= j < ns.len() && is_due(#[trigger] ns[j], debounce, now) ==> due_positions(ns, debounce, now).contains(
                j as usize,
            ),
    decreases ns.len(),
{
    if ns.len() > 0 {
        let t = ns.drop_last();
        lemma_due_positions(t, debounce, now);
        let dt = due_positions(t, debounce, now);
        let d = due_positions(ns, debounce, now);
        let last = (ns.len() - 1) as usize;
        assert(last as int == ns.len() - 1);
        if is_due(ns.last(), debounce, now) {
            assert(d == dt.push(last));
        } else {
            assert(d == dt);
        }
        assert forall|k: int| 0 <= k < d.len() implies (#[trigger] d[k]) < ns.len() && is_due(
            ns[d[k] as int],
            debounce,
            now,
        ) by {
            if k < dt.len() {
                assert(d[k] == dt[k]);
                assert(ns[dt[k] as int] == t[dt[k] as int]);
            } else {
                assert(d[k] == last);
                assert(ns[last as int] == ns.last());
            }
        }
        assert forall|a: int, b: int| 0 <= a < b < d.len() implies (#[trigger] d[a]) < (#[trigger] d[b]) by {
            assert(d[a] == dt[a]);
            if b < dt.len() {
                assert(d[b] == dt[b]);
            } else {
                assert(d[b] == last);
            }
        }
        assert forall|j: int| 0 <= j < ns.len() && is_due(#[trigger] ns[j], debounce, now) implies d.contains(
            j as usize,
        ) by {
            if j < ns.len() - 1 {
                assert(t[j] == ns[j]);
                let k = choose|k: int| 0 <= k < dt.len() && dt[k] == j as usize;
                assert(d[k] == dt[k]);
            } else {
                assert(ns[j] == ns.last());
                assert(d[d.len() - 1] == j as usize);
            }
        }
    }
}

/// A sweep made of one write per due note, in index order, writes each due
/// note exactly once and nothing else: every write is to a due note, no note
/// is written twice, and every due note is written. So after recording the
/// results, a note is clean again exactly when it was due and its write
/// succeeded, and every other note keeps its state.
pub proof fn lemma_sweep_writes_each_due_note_once<E>(
    ns: Seq<OpenNote>,
    debounce: u64,
    now: u64,
    ws: Seq<(usize, Result<(), E>)>,
)
    requires
        ns.len() <= usize::MAX,
        ws.map_values(|w: (usize, Result<(), E>)| w.0) == due_positions(ns, debounce, now),
    ensures
        forall|k: int| 0 <= k < ws.len() ==> (#[trigger] ws[k]).0 < ns.len() && is_due(ns[ws[k].0 as int], debounce, now),
        forall|a: int, b: int| 0 <= a < b < ws.len() ==> (#[trigger] ws[a]).0 < (#[trigger] ws[b]).0,
        forall|j: int| 0 <= j < ns.len() && is_due(#[trigger] ns[j], debounce, now) ==> exists|k: int| 0 <= k < ws.len() && ws[k].0 == j,
        forall|j: int| 0 <= j < ns.len() && #[trigger] saved_ok(ws, j) ==> is_due(ns[j], debounce, now),
{
    lemma_due_positions(ns, debounce, now);
    let m = ws.map_values(|w: (usize, Result<(), E>)| w.0);
    let d = due_positions(ns, debounce, now);
    assert forall|k: int| 0 <= k < ws.len() implies (#[trigger] ws[k]).0 < ns.len() && is_due(ns[ws[k].0 as int], debounce, now) by {
        assert(m[k] == ws[k].0);
        assert(d[k] == m[k]);
    }
    assert forall|a: int, b: int| 0 <= a < b < ws.len() implies (#[trigger] ws[a]).0 < (#[trigger] ws[b]).0 by {
        assert(m[a] == ws[a].0);
        assert(m[b] == ws[b].0);
        assert(d[a] < d[b]);
    }
    assert forall|j: int| 0 <= j < ns.len() && is_due(#[trigger] ns[j], debounce, now) implies exists|k: int| 0 <= k < ws.len() && ws[k].0 == j by {
        assert(d.contains(j as usize));
        let k = choose|k: int| 0 <= k < d.len() && d[k] == j as usize;
        assert(m[k] == ws[k].0);
        assert(ws[k].0 == j);
    }
    assert forall|j: int| 0 <= j < ns.len() && #[trigger] saved_ok(ws, j) implies is_due(ns[j], debounce, now) by {
        let k = choose|k: int| 0 <= k < ws.len() && ws[k].0 == j && ws[k].1 is Ok;
        assert(m[k] == ws[k].0);
        assert(d[k] == m[k]);
    }
}

/// Records the results of the auto-save writes, each given as the note's
/// position and the write's result, in the order they were made: a note
/// whose write succeeded is clean again, and the sweep lists it; the first
/// failure is kept with the note's relative path.
pub fn auto_save_dirty_notes<E>(notes: &mut Vec<OpenNote>, writes: Vec<(usize, Result<(), E>)>) -> (r:
    AutoSaveSweep<E>)
    requires
        forall|k: int| 0 <= k < writes@.len() ==> writes@[k].0 < old(notes)@.len(),
    ensures
        final(notes)@.len() == old(notes)@.len(),
        forall|j: int|
            #![trigger final(notes)@[j]]
            0 <= j < old(notes)@.len() ==> {
                &&& old(notes)@[j].same_but_content(&final(notes)@[j])
                &&& final(notes)@[j].source == old(notes)@[j].source
                &&& final(notes)@[j].dirty == (old(notes)@[j].dirty && !saved_ok(writes@, j))
            },
        r.saved@.len() == ok_positions(writes@).len(),
        forall|m: int|
            0 <= m < r.saved@.len() ==> outcome_of(
                #[trigger] r.saved@[m],
                old(notes)@[ok_positions(writes@)[m] as int],
            ),
        first_failure(writes@) == -1 <==> r.first_error is None,
        r.first_error matches Some(fe) ==> ({
            let k = first_failure(writes@);
            &&& fe.0@ == old(notes)@[writes@[k].0 as int].note_id.path_chars()
            &&& writes@[k].1 == Err::<(), E>(fe.1)
        }),
{
    let ghost orig = writes@;
    let ghost start = notes@;
    let mut rest = writes;
    let mut saved: Vec<AutoSaveOutcome> = Vec::new();
    let mut first_error: Option<(String, E)> = None;
    let mut i: usize = 0;
    let total = rest.len();
    while rest.len() > 0
        invariant
            i + rest@.len() == orig.len(),
            orig.len() == total,
            rest@ == orig.skip(i as int),
            forall|k: int| 0 <= k < orig.len() ==> orig[k].0 < start.len(),
            notes@.len() == start.len(),
            forall|j: int|
                #![trigger notes@[j]]
                0 <= j < start.len() ==> {
                    &&& start[j].same_but_content(&notes@[j])
                    &&& notes@[j].source == start[j].source
                    &&& notes@[j].dirty == (start[j].dirty && !saved_ok(orig.take(i as int), j))
                },
            saved@.len() == ok_positions(orig.take(i as int)).len(),
            forall|m: int|
                0 <= m < saved@.len() ==> outcome_of(
                    #[trigger] saved@[m],
                    start[ok_positions(orig.take(i as int))[m] as int],
                ),
            first_failure(orig.take(i as int)) == -1 <==> first_error is None,
            first_error matches Some(fe) ==> ({
                let k = first_failure(orig.take(i as int));
                &&& fe.0@ == start[orig[k].0 as int].note_id.path_chars()
                &&& orig[k].1 == Err::<(), E>(fe.1)
            }),
        decreases rest@.len(),
    {
        let (idx, res) = rest.remove(0);
        assert((idx, res) == orig[i as int]);
        assert(idx < start.len());
        let ghost pre = orig.take(i as int);
        let ghost post = orig.take(i + 1);
        assert(post.drop_last() =~= pre);
        assert(post.last() == orig[i as int]);
        assert(forall|k: int| 0 <= k < pre.len() ==> post[k] == pre[k]);
        match res {
            Ok(()) => {
                let n = &notes[idx];
                assert(start[idx as int].same_but_content(&notes@[idx as int]));
                assert(notes@[idx as int].source == start[idx as int].source);
                let outcome = AutoSaveOutcome {
                    note_id: n.note_id.clone(),
                    source: n.source.clone(),
                    absolute_path: n.absolute_path.clone(),
                    relative: n.note_id.relative_path_owned(),
                };
                assert(ok_positions(post) == ok_positions(pre).push(idx));
                assert(outcome_of(outcome, start[idx as int]));
                let fresh = n.with_content(n.source.clone(), false);
                let ghost before_notes = notes@;
                notes.set(idx, fresh);
                let ghost before_saved = saved@;
                saved.push(outcome);
                assert forall|m: int| 0 <= m < saved@.len() implies outcome_of(
                    #[trigger] saved@[m],
                    start[ok_positions(post)[m] as int],
                ) by {
                    if m < before_saved.len() {
                        assert(saved@[m] == before_saved[m]);
                        assert(ok_positions(post)[m] == ok_positions(pre)[m]);
                    } else {
                        assert(ok_positions(post)[m] == idx);
                    }
                }
                assert forall|j: int| 0 <= j < start.len() implies {
                    &&& start[j].same_but_content(&notes@[j])
                    &&& notes@[j].source == start[j].source
                    &&& notes@[j].dirty == (start[j].dirty && !saved_ok(post, j))
                } by {
                    if j == idx {
                        assert(post[i as int].0 == j && post[i as int].1 is Ok);
                    } else {
                        assert(notes@[j] == before_notes[j]);
                        if saved_ok(post, j) {
                            let k = choose|k: int| 0 <= k < post.len() && post[k].0 == j && post[k].1 is Ok;
                            assert(k < pre.len());
                            assert(pre[k] == post[k]);
                        }
                        if saved_ok(pre, j) {
                            let k = choose|k: int| 0 <= k < pre.len() && pre[k].0 == j && pre[k].1 is Ok;
                            assert(pre[k] == post[k]);
                        }
                    }
                }
            },
            Err(e) => {
                assert forall|j: int| 0 <= j < start.len() implies saved_ok(post, j) == saved_ok(pre, j) by {
                    if saved_ok(post, j) {
                        let k = choose|k: int| 0 <= k < post.len() && post[k].0 == j && post[k].1 is Ok;
                        assert(k < pre.len());
                        assert(pre[k] == post[k]);
                    }
                    if saved_ok(pre, j) {
                        let k = choose|k: int| 0 <= k < pre.len() && pre[k].0 == j && pre[k].1 is Ok;
                        assert(pre[k] == post[k]);
                    }
                }
                if first_error.is_none() {
                    first_error = Some((notes[idx].note_id.relative_path_owned(), e));
                }
            },
        }
        assert(rest@ =~= orig.skip(i + 1));
        i = i + 1;
    }
    assert(orig.take(i as int) =~= orig);
    assert forall|j: int| 0 <= j < start.len() implies {
        &&& start[j].same_but_content(&notes@[j])
        &&& notes@[j].source == start[j].source
        &&& notes@[j].dirty == (start[j].dirty && !saved_ok(orig, j))
    } by {
        assert(orig.take(i as int) == orig);
    }
    AutoSaveSweep { saved, first_error }
}

} // verus!
