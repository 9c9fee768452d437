//! The open notes of a folder: merging a fresh discovery into them, the
//! path index used to match watcher events, and new-note contents.
use vstd::prelude::*;
use vstd::string::*;
use crate::conflict::{OpenNote, first_key, first_key_from};
use crate::indexer::NoteRecord;
use crate::text::{utf8_bytes, push_str};
use crate::path::path_key;

verus! {

broadcast use vstd::seq::group_seq_axioms;

/// Position of the last note of `ns` with identifier key `key`, or `-1`.
pub open spec fn last_open(ns: Seq<OpenNote>, key: Seq<Seq<u8>>) -> int
    decreases ns.len(),
{
    if ns.len() == 0 {
        -1
    } else if ns.last().note_id.key() == key {
        ns.len() - 1
    } else {
        last_open(ns.drop_last(), key)
    }
}

proof fn lemma_last_open(ns: Seq<OpenNote>, key: Seq<Seq<u8>>)
    ensures
        last_open(ns, key) == -1 || (0 <= last_open(ns, key) < ns.len() && ns[last_open(ns, key)].note_id.key()
            == key),
        last_open(ns, key) == -1 <==> forall|j: int| 0 <= j < ns.len() ==> ns[j].note_id.key() != key,
        forall|j: int| last_open(ns, key) < j < ns.len() ==> ns[j].note_id.key() != key,
    decreases ns.len(),
{
    if ns.len() > 0 {
        lemma_last_open(ns.drop_last(), key);
        assert forall|j: int| 0 <= j < ns.len() - 1 implies ns[j] == ns.drop_last()[j] by {}
    }
}

/// Whether discovered record `i` repeats the note of an earlier one.
pub open spec fn repeated(d: Seq<NoteRecord>, i: int) -> bool {
    exists|k: int| 0 <= k < i && d[k].note_id.key() == d[i].note_id.key()
}

/// Whether some discovered record is for note `key`.
pub open spec fn discovered(d: Seq<NoteRecord>, key: Seq<Seq<u8>>) -> bool {
    exists|k: int| 0 <= k < d.len() && d[k].note_id.key() == key
}

/// Whether `m` is the open note for discovered record `i`: a note already
/// open (by its last occurrence) takes the discovered path, and its
/// discovered contents unless it has unsaved edits; any other record opens as
/// a clean note last edited `now`. Only the first record of a note takes
/// over the open one.
pub open spec fn merged_note(ns: Seq<OpenNote>, d: Seq<NoteRecord>, i: int, now: u64, m: OpenNote) -> bool {
    let l = last_open(ns, d[i].note_id.key());
    if !repeated(d, i) && l != -1 {
        &&& m.note_id.path() == ns[l].note_id.path()
        &&& m.note_id.path_chars() == ns[l].note_id.path_chars()
        &&& m.note_id.key() == ns[l].note_id.key()
        &&& m.absolute_path == d[i].absolute_path
        &&& m.source == (if ns[l].dirty {
            ns[l].source
        } else {
            d[i].source
        })
        &&& m.dirty == ns[l].dirty
        &&& m.last_edit_at == ns[l].last_edit_at
    } else {
        &&& m.note_id.path() == d[i].note_id.path()
        &&& m.note_id.path_chars() == d[i].note_id.path_chars()
        &&& m.note_id.key() == d[i].note_id.key()
        &&& m.absolute_path == d[i].absolute_path
        &&& m.source == d[i].source
        &&& !m.dirty
        &&& m.last_edit_at == now
    }
}

/// Whether open note `j` is carried over: it is the last open note for its
/// identifier and no record of the discovery is for it.
pub open spec fn kept(ns: Seq<OpenNote>, d: Seq<NoteRecord>, j: int) -> bool {
    last_open(ns, ns[j].note_id.key()) == j && !discovered(d, ns[j].note_id.key())
}

/// The positions of the open notes carried over, in order.
pub open spec fn kept_positions(ns: Seq<OpenNote>, d: Seq<NoteRecord>, n: int) -> Seq<int>
    decreases n,
{
    if n <= 0 {
        Seq::empty()
    } else if kept(ns, d, n - 1) {
        kept_positions(ns, d, n - 1).push(n - 1)
    } else {
        kept_positions(ns, d, n - 1)
    }
}

/// Whether two open notes hold the same note and state.
pub open spec fn same_open(a: OpenNote, b: OpenNote) -> bool {
    &&& a.same_but_content(&b)
    &&& a.source == b.source
    &&& a.dirty == b.dirty
}

/// Position of the first note of `ns` with identifier key `key`, or `-1`.
pub open spec fn first_open_from(ns: Seq<OpenNote>, key: Seq<Seq<u8>>, i: int) -> int
    decreases ns.len() - i,
{
    if i < 0 || i >= ns.len() {
        -1
    } else if ns[i].note_id.key() == key {
        i
    } else {
        first_open_from(ns, key, i + 1)
    }
}

proof fn lemma_first_open_from(ns: Seq<OpenNote>, key: Seq<Seq<u8>>, i: int)
    requires
        0 <= i,
    ensures
        first_open_from(ns, key, i) == -1 || (i <= first_open_from(ns, key, i) < ns.len()
            && ns[first_open_from(ns, key, i)].note_id.key() == key),
    decreases ns.len() - i,
{
    if i < ns.len() && ns[i].note_id.key() != key {
        lemma_first_open_from(ns, key, i + 1);
    }
}

/// The selection after a merge into `m`: the first note for the previously
/// selected note if it is still there, else the first note, if any.
pub open spec fn reselected(ns: Seq<OpenNote>, selected: Option<usize>, m: Seq<OpenNote>) -> Option<usize> {
    let found = match selected {
        Some(i) => if i < ns.len() {
            first_open_from(m, ns[i as int].note_id.key(), 0)
        } else {
            -1
        },
        None => -1,
    };
    if found != -1 {
        Some(found as usize)
    } else if m.len() > 0 {
        Some(0usize)
    } else {
        None
    }
}

/// When no two open notes and no two discovered records share an
/// identifier, the merge is the plain one: no record repeats an earlier one,
/// a record takes over the open note with its identifier whenever there is
/// one, and the open notes carried over are exactly those not discovered.
pub proof fn lemma_merge_with_distinct_ids(ns: Seq<OpenNote>, d: Seq<NoteRecord>)
    requires
        forall|a: int, b: int| 0 <= a < ns.len() && 0 <= b < ns.len() && a != b ==> (#[trigger] ns[a]).note_id.key()
            != (#[trigger] ns[b]).note_id.key(),
        forall|a: int, b: int| 0 <= a < d.len() && 0 <= b < d.len() && a != b ==> (#[trigger] d[a]).note_id.key()
            != (#[trigger] d[b]).note_id.key(),
    ensures
        forall|i: int| 0 <= i < d.len() ==> !#[trigger] repeated(d, i),
        forall|i: int, j: int|
            0 <= i < d.len() && 0 <= j < ns.len() && (#[trigger] d[i]).note_id.key() == (#[trigger] ns[j]).note_id.key()
                ==> last_open(ns, d[i].note_id.key()) == j,
        forall|j: int| 0 <= j < ns.len() ==> (#[trigger] kept(ns, d, j) <==> !discovered(d, ns[j].note_id.key())),
{
    assert forall|i: int| 0 <= i < d.len() implies !#[trigger] repeated(d, i) by {
        if repeated(d, i) {
            let k = choose|k: int| 0 <= k < i && d[k].note_id.key() == d[i].note_id.key();
            assert(d[k].note_id.key() != d[i].note_id.key());
        }
    }
    assert forall|i: int, j: int|
        0 <= i < d.len() && 0 <= j < ns.len() && (#[trigger] d[i]).note_id.key() == (#[trigger] ns[j]).note_id.key()
            implies last_open(ns, d[i].note_id.key()) == j by {
        lemma_last_open(ns, d[i].note_id.key());
        let l = last_open(ns, d[i].note_id.key());
        assert(ns[j].note_id.key() == d[i].note_id.key());
        if l != j {
            assert(ns[l].note_id.key() != ns[j].note_id.key());
        }
    }
    assert forall|j: int| 0 <= j < ns.len() implies (#[trigger] kept(ns, d, j) <==> !discovered(d, ns[j].note_id.key())) by {
        lemma_last_open(ns, ns[j].note_id.key());
        let l = last_open(ns, ns[j].note_id.key());
        if l != j {
            assert(ns[l].note_id.key() != ns[j].note_id.key());
        }
    }
}

fn open_note_of(r: &NoteRecord, now: u64) -> (m: OpenNote)
    ensures
        m.note_id.path() == r.note_id.path(),
        m.note_id.path_chars() == r.note_id.path_chars(),
        m.note_id.key() == r.note_id.key(),
        m.absolute_path == r.absolute_path,
        m.source == r.source,
        !m.dirty,
        m.last_edit_at == now,
{
    OpenNote {
        note_id: r.note_id.clone(),
        absolute_path: r.absolute_path.clone(),
        source: r.source.clone(),
        dirty: false,
        last_edit_at: now,
    }
}

fn copy_open(n: &OpenNote) -> (m: OpenNote)
    ensures
        same_open(*n, m),
        m.last_edit_at == n.last_edit_at,
{
    n.with_content(n.source.clone(), n.dirty)
}

/// Reconciles a fresh discovery with the open notes: one note per discovered
/// record (see [`merged_note`]), then the open notes that were not
/// discovered (unsaved buffers), in their order; the selection follows the
/// selected note, else falls back to the first note.
pub fn merge_discovered_notes(
    notes: &[OpenNote],
    selected: Option<usize>,
    discovered_notes: &[NoteRecord],
    now: u64,
) -> (r: (Vec<OpenNote>, Option<usize>))
    ensures
        ({
            let d = discovered_notes@;
            let ks = kept_positions(notes@, d, notes@.len() as int);
            &&& r.0@.len() == d.len() + ks.len()
            &&& forall|i: int| 0 <= i < d.len() ==> merged_note(notes@, d, i, now, #[trigger] r.0@[i])
            &&& forall|j: int| 0 <= j < ks.len() ==> same_open(notes@[ks[j]], #[trigger] r.0@[d.len() + j])
                && r.0@[d.len() + j].last_edit_at == notes@[ks[j]].last_edit_at
            &&& r.1 == reselected(notes@, selected, r.0@)
        }),
{
    let ghost ns = notes@;
    let ghost d = discovered_notes@;
    let mut out: Vec<OpenNote> = Vec::new();
    let mut i: usize = 0;
    while i < discovered_notes.len()
        invariant
            0 <= i <= d.len(),
            ns == notes@,
            d == discovered_notes@,
            out@.len() == i,
            forall|k: int| 0 <= k < i ==> merged_note(ns, d, k, now, #[trigger] out@[k]),
        decreases d.len() - i,
    {
        let rec = &discovered_notes[i];
        let mut seen = false;
        let mut k: usize = 0;
        while k < i && !seen
            invariant
                0 <= k <= i < d.len(),
                d == discovered_notes@,
                *rec == d[i as int],
                seen ==> repeated(d, i as int),
                !seen ==> forall|x: int| 0 <= x < k ==> d[x].note_id.key() != d[i as int].note_id.key(),
            decreases i - k,
        {
            if discovered_notes[k].note_id.same(&rec.note_id) {
                seen = true;
            }
            k = k + 1;
        }
        let mut last: Option<usize> = None;
        if !seen {
            let mut j: usize = notes.len();
            assert(ns.take(j as int) =~= ns);
            while j > 0 && last.is_none()
                invariant
                    0 <= j <= ns.len(),
                    ns == notes@,
                    i < d.len(),
                    *rec == d[i as int],
                    last is None ==> last_open(ns, rec.note_id.key()) == last_open(ns.take(j as int), rec.note_id.key()),
                    last matches Some(l) ==> l < ns.len() && last_open(ns, rec.note_id.key()) == l,
                decreases j + (if last is None {
                    1int
                } else {
                    0int
                }),
            {
                assert(ns.take(j as int).drop_last() =~= ns.take(j - 1));
                assert(ns.take(j as int).last() == ns[j - 1]);
                if notes[j - 1].note_id.same(&rec.note_id) {
                    last = Some(j - 1);
                } else {
                    j = j - 1;
                }
            }
            proof {
                if last is None {
                    assert(ns.take(j as int) =~= Seq::<OpenNote>::empty());
                }
            }
        }
        proof {
            if !seen && repeated(d, i as int) {
                let x = choose|x: int| 0 <= x < i && d[x].note_id.key() == d[i as int].note_id.key();
            }
        }
        match last {
            Some(l) => {
                let n = &notes[l];
                let source = if n.dirty {
                    n.source.clone()
                } else {
                    rec.source.clone()
                };
                let m = OpenNote {
                    note_id: n.note_id.clone(),
                    absolute_path: rec.absolute_path.clone(),
                    source,
                    dirty: n.dirty,
                    last_edit_at: n.last_edit_at,
                };
                out.push(m);
            },
            None => {
                out.push(open_note_of(rec, now));
            },
        }
        i = i + 1;
    }
    let nd = out.len();
    let mut j: usize = 0;
    while j < notes.len()
        invariant
            0 <= j <= ns.len(),
            ns == notes@,
            d == discovered_notes@,
            nd == d.len(),
            out@.len() == d.len() + kept_positions(ns, d, j as int).len(),
            forall|k: int| 0 <= k < d.len() ==> merged_note(ns, d, k, now, #[trigger] out@[k]),
            forall|x: int| 0 <= x < kept_positions(ns, d, j as int).len() ==> same_open(
                ns[kept_positions(ns, d, j as int)[x]],
                #[trigger] out@[d.len() + x],
            ) && out@[d.len() + x].last_edit_at == ns[kept_positions(ns, d, j as int)[x]].last_edit_at,
        decreases ns.len() - j,
    {
        let n = &notes[j];
        let mut later = false;
        let mut x: usize = j + 1;
        while x < notes.len() && !later
            invariant
                j < x <= ns.len(),
                ns == notes@,
                *n == ns[j as int],
                later ==> exists|y: int| j < y < ns.len() && ns[y].note_id.key() == ns[j as int].note_id.key(),
                !later ==> forall|y: int| j < y < x ==> ns[y].note_id.key() != ns[j as int].note_id.key(),
            decreases ns.len() - x,
        {
            if notes[x].note_id.same(&n.note_id) {
                later = true;
            }
            x = x + 1;
        }
        let mut found = false;
        let mut y: usize = 0;
        while y < discovered_notes.len() && !found
            invariant
                0 <= y <= d.len(),
                d == discovered_notes@,
                *n == ns[j as int],
                found ==> discovered(d, ns[j as int].note_id.key()),
                !found ==> forall|z: int| 0 <= z < y ==> d[z].note_id.key() != ns[j as int].note_id.key(),
            decreases d.len() - y,
        {
            if discovered_notes[y].note_id.same(&n.note_id) {
                found = true;
            }
            y = y + 1;
        }
        proof {
            lemma_last_open(ns, ns[j as int].note_id.key());
            lemma_last_open(ns.take(j + 1), ns[j as int].note_id.key());
            if !later {
                assert(ns.take(j + 1).last() == ns[j as int]);
                if last_open(ns, ns[j as int].note_id.key()) != j {
                    let l = last_open(ns, ns[j as int].note_id.key());
                    assert(l > j ==> ns[l].note_id.key() != ns[j as int].note_id.key());
                    assert(l < j ==> ns[j as int].note_id.key() != ns[j as int].note_id.key());
                }
            } else {
                let w = choose|w: int| j < w < ns.len() && ns[w].note_id.key() == ns[j as int].note_id.key();
                assert(last_open(ns, ns[j as int].note_id.key()) >= w);
            }
            if !found && discovered(d, ns[j as int].note_id.key()) {
                let z = choose|z: int| 0 <= z < d.len() && d[z].note_id.key() == ns[j as int].note_id.key();
            }
        }
        if !later && !found {
            out.push(copy_open(n));
        }
        j = j + 1;
    }
    let ghost m = out@;
    let wanted: Option<usize> = match selected {
        Some(s) => if s < notes.len() {
            Some(s)
        } else {
            None
        },
        None => None,
    };
    let mut sel: Option<usize> = None;
    match wanted {
        Some(s) => {
            proof {
                lemma_first_open_from(m, ns[s as int].note_id.key(), 0);
            }
            let mut p: usize = 0;
            while p < out.len() && sel.is_none()
                invariant
                    0 <= p <= m.len(),
                    m == out@,
                    s < ns.len(),
                    ns == notes@,
                    sel is None ==> first_open_from(m, ns[s as int].note_id.key(), 0) == first_open_from(
                        m,
                        ns[s as int].note_id.key(),
                        p as int,
                    ),
                    sel matches Some(q) ==> first_open_from(m, ns[s as int].note_id.key(), 0) == q,
                decreases m.len() - p + (if sel is None {
                    1int
                } else {
                    0int
                }),
            {
                if out[p].note_id.same(&notes[s].note_id) {
                    sel = Some(p);
                } else {
                    p = p + 1;
                }
            }
        },
        None => {},
    }
    if sel.is_none() && out.len() > 0 {
        sel = Some(0);
    }
    (out, sel)
}

/// Whether `r` is the path index of `notes`: each note's absolute path with
/// its position, last note first.
pub open spec fn is_path_index(r: Seq<(String, usize)>, notes: Seq<OpenNote>) -> bool {
    &&& r.len() == notes.len()
    &&& forall|j: int|
        0 <= j < r.len() ==> (#[trigger] r[j]).1 == notes.len() - 1 - j && r[j].0 == notes[notes.len() - 1
            - j].absolute_path
}

proof fn lemma_first_key_upto(s: Seq<(String, usize)>, k: Seq<u8>, i: int, q: int)
    requires
        0 <= i <= q < s.len(),
        path_key(utf8_bytes(s[q].0@)) == path_key(k),
    ensures
        i <= first_key_from(s, k, i) <= q,
        path_key(utf8_bytes(s[first_key_from(s, k, i)].0@)) == path_key(k),
        forall|m: int| i <= m < first_key_from(s, k, i) ==> path_key(utf8_bytes((#[trigger] s[m]).0@)) != path_key(k),
    decreases q - i,
{
    if path_key(utf8_bytes(s[i].0@)) != path_key(k) {
        lemma_first_key_upto(s, k, i + 1, q);
    }
}

/// Looking up the absolute path of any open note in the path index finds a
/// note with the same path: the last one that has it.
pub proof fn lemma_path_index_finds_every_note(r: Seq<(String, usize)>, notes: Seq<OpenNote>, i: int)
    requires
        is_path_index(r, notes),
        0 <= i < notes.len(),
    ensures
        ({
            let k = path_key(utf8_bytes(notes[i].absolute_path@));
            let f = first_key(r, utf8_bytes(notes[i].absolute_path@));
            &&& 0 <= f < r.len()
            &&& path_key(utf8_bytes(notes[r[f].1 as int].absolute_path@)) == k
            &&& i <= r[f].1
            &&& forall|j: int|
                r[f].1 < j < notes.len() ==> path_key(utf8_bytes((#[trigger] notes[j]).absolute_path@)) != k
        }),
{
    let k = utf8_bytes(notes[i].absolute_path@);
    let q = notes.len() - 1 - i;
    assert(r[q].0 == notes[i].absolute_path);
    lemma_first_key_upto(r, k, 0, q);
    let f = first_key(r, k);
    assert(r[f].1 == notes.len() - 1 - f);
    assert forall|j: int| r[f].1 < j < notes.len() implies path_key(utf8_bytes((#[trigger] notes[j]).absolute_path@))
        != path_key(k) by {
        let m = notes.len() - 1 - j;
        assert(0 <= m < f);
        assert(r[m].0 == notes[j].absolute_path);
        assert(path_key(utf8_bytes(r[m].0@)) != path_key(k));
    }
}

/// The lookup table from absolute path to position in `notes`: a path that
/// occurs twice maps to its last position, as a map filled in order does.
pub fn build_note_path_index(notes: &[OpenNote]) -> (r: Vec<(String, usize)>)
    ensures
        is_path_index(r@, notes@),
{
    let mut out: Vec<(String, usize)> = Vec::new();
    let mut i: usize = notes.len();
    while i > 0
        invariant
            0 <= i <= notes@.len(),
            out@.len() == notes@.len() - i,
            forall|j: int|
                0 <= j < out@.len() ==> (#[trigger] out@[j]).1 == notes@.len() - 1 - j && out@[j].0
                    == notes@[notes@.len() - 1 - j].absolute_path,
        decreases i,
    {
        i = i - 1;
        out.push((notes[i].absolute_path.clone(), i));
    }
    out
}

/// Appends an embed of the image at `relative_target` on a line of its own
/// (`\n![[<target>]]\n`); the note becomes dirty, edited at `now`.
pub fn append_image_embed(note: &mut OpenNote, relative_target: &str, now: u64)
    ensures
        old(note).note_id.path() == final(note).note_id.path(),
        old(note).note_id.path_chars() == final(note).note_id.path_chars(),
        old(note).note_id.key() == final(note).note_id.key(),
        final(note).absolute_path == old(note).absolute_path,
        utf8_bytes(final(note).source@) == utf8_bytes(old(note).source@) + seq![0x0Au8, 0x21, 0x5B, 0x5B]
            + relative_target.spec_bytes() + seq![0x5Du8, 0x5D, 0x0A],
        final(note).dirty,
        final(note).last_edit_at == now,
{
    let open = "\n![[";
    let close = "]]\n";
    proof {
        reveal_strlit("\n![[");
        reveal_strlit("]]\n");
        crate::text::lemma_ascii_str(open);
        crate::text::lemma_ascii_str(close);
        assert(open.spec_bytes() =~= seq![0x0Au8, 0x21, 0x5B, 0x5B]);
        assert(close.spec_bytes() =~= seq![0x5Du8, 0x5D, 0x0A]);
    }
    let mut source = note.source.clone();
    push_str(&mut source, open);
    push_str(&mut source, relative_target);
    push_str(&mut source, close);
    note.source = source;
    note.dirty = true;
    note.last_edit_at = now;
}

/// The part of a link name before its first `#` (the whole name without one).
pub open spec fn name_before_anchor(b: Seq<u8>) -> Seq<u8> {
    let h = crate::text::find_byte(b, 0, b.len() as int, 0x23);
    if h == -1 {
        b
    } else {
        b.subrange(0, h)
    }
}

/// Position of the first note of `ns`, from `i` on, whose stem is `stem`, or `-1`.
pub open spec fn first_with_stem(ns: Seq<OpenNote>, stem: Seq<u8>, i: int) -> int
    decreases ns.len() - i,
{
    if i < 0 || i >= ns.len() {
        -1
    } else if ns[i].note_id.stem() == stem {
        i
    } else {
        first_with_stem(ns, stem, i + 1)
    }
}

/// The note a clicked link name leads to: the first note whose file stem is
/// the name without its `#anchor`.
pub fn note_named(notes: &[OpenNote], name: &str) -> (r: Option<usize>)
    ensures
        ({
            let f = first_with_stem(notes@, name_before_anchor(name.spec_bytes()), 0);
            r == if f == -1 {
                None::<usize>
            } else {
                Some(f as usize)
            }
        }),
{
    let b = name.as_bytes();
    proof {
        crate::text::lemma_str_valid(name);
        crate::text::lemma_find_byte_props(b@, 0, b@.len() as int, 0x23);
        vstd::utf8::is_char_boundary_start_end_of_seq(b@);
    }
    let stem = match crate::text::find_byte_exec(b, 0, b.len(), 0x23) {
        None => name,
        Some(h) => {
            proof {
                crate::text::lemma_after_ascii(b@, h as int);
            }
            crate::text::str_slice(name, 0, h)
        },
    };
    let mut i: usize = 0;
    while i < notes.len()
        invariant
            0 <= i <= notes@.len(),
            stem.spec_bytes() == name_before_anchor(name.spec_bytes()),
            first_with_stem(notes@, stem.spec_bytes(), 0) == first_with_stem(notes@, stem.spec_bytes(), i as int),
        decreases notes@.len() - i,
    {
        if crate::text::str_eq(notes[i].note_id.file_stem(), stem) {
            return Some(i);
        }
        i = i + 1;
    }
    None
}

} // verus!
