//! The folder tree of the files panel, built from a flat list of notes.
//!
//! A directory is given by the list of its path components (a prefix). Its
//! subdirectories are the distinct next components of the notes below it,
//! sorted by name; its notes are those directly inside it, stably sorted by
//! file stem.
use vstd::prelude::*;
use vstd::string::*;
use crate::folder::NoteId;
use crate::analysis::{insert_name, fold_names};
use crate::path::{bytes_order, strings_bytes, lemma_strings_bytes_push};
use crate::index::key_stem;
use crate::text::utf8_bytes;

verus! {

broadcast use vstd::seq::group_seq_axioms;

/// A directory node of the files-panel tree.
#[derive(Debug)]
pub struct DirNode {
    /// Folder-relative path from the root, using `/` separators.
    pub relative_path: String,
    /// Display name (last path component).
    pub name: String,
    /// Subdirectories of this directory, sorted by name.
    pub subdirs: Vec<DirNode>,
    /// Note ids whose parent is this directory, sorted by stem.
    pub notes: Vec<NoteId>,
}

/// The full files-panel tree.
#[derive(Debug)]
pub struct Tree {
    /// Top-level subdirectories, sorted by name.
    pub subdirs: Vec<DirNode>,
    /// Notes that sit at the folder root, sorted by stem.
    pub root_notes: Vec<NoteId>,
}

// ---------------------------------------------------------------------------
// The model
// ---------------------------------------------------------------------------
/// Path components joined with `/`.
pub open spec fn join_path(p: Seq<Seq<u8>>) -> Seq<u8>
    decreases p.len(),
{
    if p.len() == 0 {
        Seq::empty()
    } else if p.len() == 1 {
        p[0]
    } else {
        join_path(p.drop_last()) + seq![0x2Fu8] + p.last()
    }
}

/// The keys of a list of notes.
pub open spec fn keys_of(ns: Seq<NoteId>) -> Seq<Seq<Seq<u8>>> {
    ns.map_values(|n: NoteId| n.key())
}

/// Whether the note with components `k` lies below the directory `p`, in a
/// subdirectory of it.
pub open spec fn below(k: Seq<Seq<u8>>, p: Seq<Seq<u8>>) -> bool {
    k.len() > p.len() + 1 && k.take(p.len() as int) == p
}

/// Whether the note with components `k` sits directly in the directory `p`.
pub open spec fn directly_in(k: Seq<Seq<u8>>, p: Seq<Seq<u8>>) -> bool {
    k.len() == p.len() + 1 && k.take(p.len() as int) == p
}

/// The next component of every note below `p`, in note order.
pub open spec fn next_names(ks: Seq<Seq<Seq<u8>>>, p: Seq<Seq<u8>>) -> Seq<Seq<u8>>
    decreases ks.len(),
{
    if ks.len() == 0 {
        Seq::empty()
    } else if below(ks.last(), p) {
        next_names(ks.drop_last(), p).push(ks.last()[p.len() as int])
    } else {
        next_names(ks.drop_last(), p)
    }
}

/// The names of the subdirectories of `p`: sorted, each once.
pub open spec fn child_names(ks: Seq<Seq<Seq<u8>>>, p: Seq<Seq<u8>>) -> Seq<Seq<u8>> {
    fold_names(next_names(ks, p))
}

/// The notes directly in `p`, in note order.
pub open spec fn notes_in(ks: Seq<Seq<Seq<u8>>>, p: Seq<Seq<u8>>) -> Seq<Seq<Seq<u8>>>
    decreases ks.len(),
{
    if ks.len() == 0 {
        Seq::empty()
    } else if directly_in(ks.last(), p) {
        notes_in(ks.drop_last(), p).push(ks.last())
    } else {
        notes_in(ks.drop_last(), p)
    }
}

/// Inserts `x` after every note whose stem is not greater (a stable insertion).
pub open spec fn insert_by_stem(s: Seq<Seq<Seq<u8>>>, x: Seq<Seq<u8>>) -> Seq<Seq<Seq<u8>>>
    decreases s.len(),
{
    if s.len() == 0 {
        seq![x]
    } else if bytes_order(key_stem(x), key_stem(s[0])) < 0 {
        seq![x] + s
    } else {
        seq![s[0]] + insert_by_stem(s.drop_first(), x)
    }
}

/// `s` stably sorted by file stem.
pub open spec fn sort_by_stem(s: Seq<Seq<Seq<u8>>>) -> Seq<Seq<Seq<u8>>>
    decreases s.len(),
{
    if s.len() == 0 {
        Seq::empty()
    } else {
        insert_by_stem(sort_by_stem(s.drop_last()), s.last())
    }
}

/// The greatest number of components of a note.
pub open spec fn max_depth(ks: Seq<Seq<Seq<u8>>>) -> int
    decreases ks.len(),
{
    if ks.len() == 0 {
        0
    } else if ks.last().len() > max_depth(ks.drop_last()) {
        ks.last().len() as int
    } else {
        max_depth(ks.drop_last())
    }
}

/// Whether `d` is the directory `p` of the tree of the notes `ks`.
pub open spec fn dir_ok(d: DirNode, ks: Seq<Seq<Seq<u8>>>, p: Seq<Seq<u8>>) -> bool
    decreases max_depth(ks) - p.len(),
{
    &&& p.len() >= 1
    &&& utf8_bytes(d.relative_path@) == join_path(p)
    &&& utf8_bytes(d.name@) == p.last()
    &&& keys_of(d.notes@) == sort_by_stem(notes_in(ks, p))
    &&& d.subdirs@.len() == child_names(ks, p).len()
    &&& (p.len() < max_depth(ks) ==> forall|i: int|
        0 <= i < d.subdirs@.len() ==> dir_ok(
            #[trigger] d.subdirs@[i],
            ks,
            p.push(child_names(ks, p)[i]),
        ))
}

/// Whether `t` is the tree of the notes `ks`.
pub open spec fn tree_ok(t: Tree, ks: Seq<Seq<Seq<u8>>>) -> bool {
    &&& keys_of(t.root_notes@) == sort_by_stem(notes_in(ks, Seq::empty()))
    &&& t.subdirs@.len() == child_names(ks, Seq::empty()).len()
    &&& forall|i: int|
        0 <= i < t.subdirs@.len() ==> dir_ok(
            #[trigger] t.subdirs@[i],
            ks,
            seq![child_names(ks, Seq::empty())[i]],
        )
}

/// The ancestor directories of the note with components `k`, outermost first.
pub open spec fn ancestors(k: Seq<Seq<u8>>) -> Seq<Seq<u8>> {
    if k.len() == 0 {
        Seq::empty()
    } else {
        Seq::new((k.len() - 1) as nat, |i: int| join_path(k.take(i + 1)))
    }
}

// ---------------------------------------------------------------------------
// Lemmas
// ---------------------------------------------------------------------------
proof fn lemma_max_depth(ks: Seq<Seq<Seq<u8>>>)
    ensures
        max_depth(ks) >= 0,
        forall|i: int| 0 <= i < ks.len() ==> (#[trigger] ks[i]).len() <= max_depth(ks),
    decreases ks.len(),
{
    if ks.len() > 0 {
        lemma_max_depth(ks.drop_last());
        assert forall|i: int| 0 <= i < ks.len() implies (#[trigger] ks[i]).len() <= max_depth(ks) by {
            if i < ks.len() - 1 {
                assert(ks[i] == ks.drop_last()[i]);
            }
        }
    }
}

proof fn lemma_no_names_below(ks: Seq<Seq<Seq<u8>>>, p: Seq<Seq<u8>>)
    requires
        forall|i: int| 0 <= i < ks.len() ==> (#[trigger] ks[i]).len() <= p.len(),
    ensures
        next_names(ks, p).len() == 0,
    decreases ks.len(),
{
    if ks.len() > 0 {
        assert forall|i: int| 0 <= i < ks.len() - 1 implies (#[trigger] ks.drop_last()[i]).len() <= p.len() by {
            assert(ks.drop_last()[i] == ks[i]);
        }
        lemma_no_names_below(ks.drop_last(), p);
    }
}

proof fn lemma_insert_name_contains(s: Seq<Seq<u8>>, x: Seq<u8>, y: Seq<u8>)
    ensures
        insert_name(s, x).contains(y) <==> s.contains(y) || y == x,
    decreases s.len(),
{
    if s.len() == 0 {
        assert(insert_name(s, x)[0] == x);
    } else {
        crate::path::lemma_bytes_order(x, s[0]);
        let t = s.drop_first();
        assert(s =~= seq![s[0]] + t);
        if bytes_order(x, s[0]) < 0 {
            assert(insert_name(s, x) =~= seq![x] + s);
            assert(insert_name(s, x)[0] == x);
            if s.contains(y) {
                let j = choose|j: int| 0 <= j < s.len() && s[j] == y;
                assert(insert_name(s, x)[j + 1] == y);
            }
            if insert_name(s, x).contains(y) && y != x {
                let j = choose|j: int| 0 <= j < insert_name(s, x).len() && insert_name(s, x)[j] == y;
                assert(s[j - 1] == y);
            }
            assert(insert_name(s, x).contains(y) <==> s.contains(y) || y == x);
        } else if bytes_order(x, s[0]) == 0 {
            assert(s[0] == x);
            assert(insert_name(s, x) == s);
            assert(insert_name(s, x).contains(y) <==> s.contains(y) || y == x);
        } else {
            lemma_insert_name_contains(t, x, y);
            let r = insert_name(s, x);
            assert(r =~= seq![s[0]] + insert_name(t, x));
            if s.contains(y) {
                let j = choose|j: int| 0 <= j < s.len() && s[j] == y;
                if j > 0 {
                    assert(t[j - 1] == y);
                    let m = choose|m: int| 0 <= m < insert_name(t, x).len() && insert_name(t, x)[m] == y;
                    assert(r[m + 1] == y);
                } else {
                    assert(r[0] == y);
                }
            }
            if y == x {
                let m = choose|m: int| 0 <= m < insert_name(t, x).len() && insert_name(t, x)[m] == y;
                assert(r[m + 1] == y);
            }
            if r.contains(y) {
                let j = choose|j: int| 0 <= j < r.len() && r[j] == y;
                if j > 0 {
                    assert(insert_name(t, x)[j - 1] == y);
                    if t.contains(y) {
                        let m = choose|m: int| 0 <= m < t.len() && t[m] == y;
                        assert(s[m + 1] == y);
                    }
                } else {
                    assert(s[0] == y);
                }
            }
        }
    }
}

proof fn lemma_fold_names_contains(s: Seq<Seq<u8>>, y: Seq<u8>)
    ensures
        fold_names(s).contains(y) <==> s.contains(y),
    decreases s.len(),
{
    if s.len() > 0 {
        lemma_fold_names_contains(s.drop_last(), y);
        lemma_insert_name_contains(fold_names(s.drop_last()), s.last(), y);
        if s.drop_last().contains(y) {
            let j = choose|j: int| 0 <= j < s.drop_last().len() && s.drop_last()[j] == y;
            assert(s[j] == y);
        }
        if s.contains(y) && y != s.last() {
            let j = choose|j: int| 0 <= j < s.len() && s[j] == y;
            assert(s.drop_last()[j] == y);
        }
        if y == s.last() {
            assert(s[s.len() - 1] == y);
        }
    }
}

proof fn lemma_insert_by_stem_contains(s: Seq<Seq<Seq<u8>>>, x: Seq<Seq<u8>>, y: Seq<Seq<u8>>)
    ensures
        insert_by_stem(s, x).contains(y) <==> s.contains(y) || y == x,
    decreases s.len(),
{
    if s.len() == 0 {
        assert(insert_by_stem(s, x)[0] == x);
    } else {
        let t = s.drop_first();
        let r = insert_by_stem(s, x);
        if bytes_order(key_stem(x), key_stem(s[0])) < 0 {
            assert(r =~= seq![x] + s);
            assert(r[0] == x);
            if s.contains(y) {
                let j = choose|j: int| 0 <= j < s.len() && s[j] == y;
                assert(r[j + 1] == y);
            }
            if r.contains(y) && y != x {
                let j = choose|j: int| 0 <= j < r.len() && r[j] == y;
                assert(s[j - 1] == y);
            }
        } else {
            lemma_insert_by_stem_contains(t, x, y);
            assert(r =~= seq![s[0]] + insert_by_stem(t, x));
            if s.contains(y) {
                let j = choose|j: int| 0 <= j < s.len() && s[j] == y;
                if j > 0 {
                    assert(t[j - 1] == y);
                    let m = choose|m: int| 0 <= m < insert_by_stem(t, x).len() && insert_by_stem(t, x)[m] == y;
                    assert(r[m + 1] == y);
                } else {
                    assert(r[0] == y);
                }
            }
            if y == x {
                let m = choose|m: int| 0 <= m < insert_by_stem(t, x).len() && insert_by_stem(t, x)[m] == y;
                assert(r[m + 1] == y);
            }
            if r.contains(y) {
                let j = choose|j: int| 0 <= j < r.len() && r[j] == y;
                if j > 0 {
                    assert(insert_by_stem(t, x)[j - 1] == y);
                    if t.contains(y) {
                        let m = choose|m: int| 0 <= m < t.len() && t[m] == y;
                        assert(s[m + 1] == y);
                    }
                } else {
                    assert(s[0] == y);
                }
            }
        }
    }
}

proof fn lemma_sort_by_stem_contains(s: Seq<Seq<Seq<u8>>>, y: Seq<Seq<u8>>)
    ensures
        sort_by_stem(s).contains(y) <==> s.contains(y),
    decreases s.len(),
{
    if s.len() > 0 {
        lemma_sort_by_stem_contains(s.drop_last(), y);
        lemma_insert_by_stem_contains(sort_by_stem(s.drop_last()), s.last(), y);
        if s.drop_last().contains(y) {
            let j = choose|j: int| 0 <= j < s.drop_last().len() && s.drop_last()[j] == y;
            assert(s[j] == y);
        }
        if s.contains(y) && y != s.last() {
            let j = choose|j: int| 0 <= j < s.len() && s[j] == y;
            assert(s.drop_last()[j] == y);
        }
        if y == s.last() {
            assert(s[s.len() - 1] == y);
        }
    }
}

proof fn lemma_notes_in_contains(ks: Seq<Seq<Seq<u8>>>, p: Seq<Seq<u8>>, k: Seq<Seq<u8>>)
    ensures
        notes_in(ks, p).contains(k) <==> ks.contains(k) && directly_in(k, p),
    decreases ks.len(),
{
    if ks.len() > 0 {
        let d = ks.drop_last();
        lemma_notes_in_contains(d, p, k);
        if d.contains(k) {
            let j = choose|j: int| 0 <= j < d.len() && d[j] == k;
            assert(ks[j] == k);
        }
        if ks.contains(k) && k != ks.last() {
            let j = choose|j: int| 0 <= j < ks.len() && ks[j] == k;
            assert(d[j] == k);
        }
        if directly_in(ks.last(), p) {
            let n = notes_in(d, p);
            assert(notes_in(ks, p) == n.push(ks.last()));
            assert(n.push(ks.last())[n.len() as int] == ks.last());
            if n.push(ks.last()).contains(k) && k != ks.last() {
                let j = choose|j: int| 0 <= j < n.len() + 1 && n.push(ks.last())[j] == k;
                assert(n[j] == k);
            }
            if n.contains(k) {
                let j = choose|j: int| 0 <= j < n.len() && n[j] == k;
                assert(n.push(ks.last())[j] == k);
            }
        }
        if k == ks.last() {
            assert(ks[ks.len() - 1] == k);
        }
    }
}

proof fn lemma_next_names_has(ks: Seq<Seq<Seq<u8>>>, p: Seq<Seq<u8>>, k: Seq<Seq<u8>>)
    requires
        ks.contains(k),
        below(k, p),
    ensures
        next_names(ks, p).contains(k[p.len() as int]),
    decreases ks.len(),
{
    let d = ks.drop_last();
    let n = next_names(d, p);
    if k == ks.last() {
        assert(next_names(ks, p) == n.push(k[p.len() as int]));
        assert(n.push(k[p.len() as int])[n.len() as int] == k[p.len() as int]);
    } else {
        let j = choose|j: int| 0 <= j < ks.len() && ks[j] == k;
        assert(d[j] == k);
        lemma_next_names_has(d, p, k);
        let m = choose|m: int| 0 <= m < n.len() && n[m] == k[p.len() as int];
        if below(ks.last(), p) {
            assert(next_names(ks, p) == n.push(ks.last()[p.len() as int]));
            assert(n.push(ks.last()[p.len() as int])[m] == k[p.len() as int]);
        }
    }
}

/// Every note has its place in the tree: it is listed among the notes of
/// the directory it sits directly in and of no other directory, and each
/// directory above it has a subdirectory on the way down to it.
pub proof fn lemma_tree_places_every_note(ks: Seq<Seq<Seq<u8>>>, k: Seq<Seq<u8>>, p: Seq<Seq<u8>>)
    requires
        ks.contains(k),
    ensures
        sort_by_stem(notes_in(ks, p)).contains(k) <==> directly_in(k, p),
        below(k, p) ==> child_names(ks, p).contains(k[p.len() as int]),
{
    lemma_sort_by_stem_contains(notes_in(ks, p), k);
    lemma_notes_in_contains(ks, p, k);
    if below(k, p) {
        lemma_next_names_has(ks, p, k);
        lemma_fold_names_contains(next_names(ks, p), k[p.len() as int]);
    }
}

// ---------------------------------------------------------------------------
// Executable helpers
// ---------------------------------------------------------------------------
/// Whether the first `p.len()` components of `k` are `p`.
pub(crate) fn starts_with(k: &Vec<String>, p: &Vec<String>) -> (r: bool)
    ensures
        r == (strings_bytes(k@).len() >= strings_bytes(p@).len() && strings_bytes(k@).take(
            strings_bytes(p@).len() as int,
        ) == strings_bytes(p@)),
{
    if k.len() < p.len() {
        return false;
    }
    let mut i: usize = 0;
    while i < p.len()
        invariant
            0 <= i <= p@.len() <= k@.len(),
            forall|j: int| 0 <= j < i ==> strings_bytes(k@)[j] == strings_bytes(p@)[j],
        decreases p@.len() - i,
    {
        if !crate::text::str_eq(k[i].as_str(), p[i].as_str()) {
            assert(strings_bytes(k@).take(p@.len() as int)[i as int] != strings_bytes(p@)[i as int]);
            return false;
        }
        i = i + 1;
    }
    assert(strings_bytes(k@).take(p@.len() as int) =~= strings_bytes(p@));
    true
}

/// The path components joined with `/`.
fn join_components(p: &Vec<String>) -> (r: String)
    ensures
        utf8_bytes(r@) == join_path(strings_bytes(p@)),
{
    let mut out = String::new();
    let mut i: usize = 0;
    let slash = "/";
    proof {
        reveal_strlit("/");
        crate::text::lemma_ascii_str(slash);
        assert(slash.spec_bytes() =~= seq![0x2Fu8]);
    }
    while i < p.len()
        invariant
            0 <= i <= p@.len(),
            slash.spec_bytes() == seq![0x2Fu8],
            utf8_bytes(out@) == join_path(strings_bytes(p@).take(i as int)),
        decreases p@.len() - i,
    {
        let ghost ps = strings_bytes(p@);
        assert(ps.take(i + 1).drop_last() =~= ps.take(i as int));
        if i > 0 {
            crate::text::push_str(&mut out, slash);
        } else {
            assert(ps.take(1) =~= seq![ps[0]]);
        }
        crate::text::push_str(&mut out, p[i].as_str());
        i = i + 1;
    }
    assert(strings_bytes(p@).take(i as int) =~= strings_bytes(p@));
    out
}

/// The sorted names of the subdirectories of `p`.
fn child_names_exec(notes: &[NoteId], p: &Vec<String>) -> (r: Vec<String>)
    ensures
        strings_bytes(r@) == child_names(keys_of(notes@), strings_bytes(p@)),
{
    let ghost ks = keys_of(notes@);
    let ghost pb = strings_bytes(p@);
    let mut out: Vec<String> = Vec::new();
    let mut i: usize = 0;
    while i < notes.len()
        invariant
            0 <= i <= notes@.len(),
            ks == keys_of(notes@),
            pb == strings_bytes(p@),
            strings_bytes(out@) == fold_names(next_names(ks.take(i as int), pb)),
        decreases notes@.len() - i,
    {
        let comps = notes[i].components();
        assert(ks.take(i + 1).drop_last() =~= ks.take(i as int));
        assert(ks.take(i + 1).last() == ks[i as int]);
        assert(ks[i as int] == notes@[i as int].key());
        if comps.len() > p.len() && comps.len() - p.len() > 1 && starts_with(comps, p) {
            let name = comps[p.len()].clone();
            assert(utf8_bytes(name@) == ks[i as int][pb.len() as int]);
            let ghost s = next_names(ks.take(i as int), pb);
            assert(next_names(ks.take(i + 1), pb) == s.push(ks[i as int][pb.len() as int]));
            assert(s.push(ks[i as int][pb.len() as int]).drop_last() =~= s);
            crate::index::insert_sorted_name(&mut out, name);
        } else {
            assert(!below(ks[i as int], pb));
        }
        i = i + 1;
    }
    assert(ks.take(i as int) =~= ks);
    out
}

/// Inserts `x` after every note whose stem is not greater.
fn insert_note_by_stem(out: &mut Vec<NoteId>, x: NoteId)
    ensures
        keys_of(final(out)@) == insert_by_stem(keys_of(old(out)@), x.key()),
{
    let ghost ks = keys_of(out@);
    let xs = x.file_stem();
    let mut i: usize = 0;
    assert(ks.skip(0) =~= ks);
    assert(ks.take(0) =~= Seq::<Seq<Seq<u8>>>::empty());
    while i < out.len()
        invariant
            0 <= i <= out@.len(),
            ks == keys_of(out@),
            out@ == old(out)@,
            xs.spec_bytes() == x.stem(),
            insert_by_stem(ks, x.key()) == ks.take(i as int) + insert_by_stem(ks.skip(i as int), x.key()),
        decreases out@.len() - i,
    {
        let c = crate::path::bytes_order_exec(xs.as_bytes(), out[i].file_stem().as_bytes());
        assert(ks.skip(i as int)[0] == ks[i as int]);
        assert(ks.skip(i as int).drop_first() =~= ks.skip(i + 1));
        if c < 0 {
            let ghost before = out@;
            out.insert(i, x);
            assert(keys_of(out@) =~= ks.take(i as int) + (seq![x.key()] + ks.skip(i as int)));
            return;
        }
        assert(ks.take(i + 1) =~= ks.take(i as int) + seq![ks[i as int]]);
        i = i + 1;
    }
    assert(ks.skip(i as int) =~= Seq::<Seq<Seq<u8>>>::empty());
    out.push(x);
    assert(keys_of(out@) =~= ks.take(i as int) + seq![x.key()]);
}

/// The notes directly in `p`, sorted by stem.
fn notes_in_exec(notes: &[NoteId], p: &Vec<String>) -> (r: Vec<NoteId>)
    ensures
        keys_of(r@) == sort_by_stem(notes_in(keys_of(notes@), strings_bytes(p@))),
{
    let ghost ks = keys_of(notes@);
    let ghost pb = strings_bytes(p@);
    let mut out: Vec<NoteId> = Vec::new();
    let mut i: usize = 0;
    while i < notes.len()
        invariant
            0 <= i <= notes@.len(),
            ks == keys_of(notes@),
            pb == strings_bytes(p@),
            keys_of(out@) == sort_by_stem(notes_in(ks.take(i as int), pb)),
        decreases notes@.len() - i,
    {
        let comps = notes[i].components();
        assert(ks.take(i + 1).drop_last() =~= ks.take(i as int));
        assert(ks.take(i + 1).last() == ks[i as int]);
        assert(ks[i as int] == notes@[i as int].key());
        if comps.len() > p.len() && comps.len() - p.len() == 1 && starts_with(comps, p) {
            let ghost s = notes_in(ks.take(i as int), pb);
            assert(s.push(ks[i as int]).drop_last() =~= s);
            insert_note_by_stem(&mut out, notes[i].clone());
        }
        i = i + 1;
    }
    assert(ks.take(i as int) =~= ks);
    out
}

/// The greatest number of components of a note.
fn max_depth_exec(notes: &[NoteId]) -> (r: usize)
    ensures
        r as int == max_depth(keys_of(notes@)),
{
    let ghost ks = keys_of(notes@);
    let mut m: usize = 0;
    let mut i: usize = 0;
    while i < notes.len()
        invariant
            0 <= i <= notes@.len(),
            ks == keys_of(notes@),
            m as int == max_depth(ks.take(i as int)),
        decreases notes@.len() - i,
    {
        let n = notes[i].components().len();
        assert(ks.take(i + 1).drop_last() =~= ks.take(i as int));
        assert(ks.take(i + 1).last() == ks[i as int]);
        if n > m {
            m = n;
        }
        i = i + 1;
    }
    assert(ks.take(i as int) =~= ks);
    m
}

/// Builds the directory `p` and everything below it.
fn build_dir(notes: &[NoteId], p: Vec<String>, depth: usize) -> (r: DirNode)
    requires
        p@.len() >= 1,
        depth as int == max_depth(keys_of(notes@)),
    ensures
        dir_ok(r, keys_of(notes@), strings_bytes(p@)),
    decreases depth - p@.len(),
{
    let ghost ks = keys_of(notes@);
    let ghost pb = strings_bytes(p@);
    let names = child_names_exec(notes, &p);
    let mut subdirs: Vec<DirNode> = Vec::new();
    if p.len() < depth {
        let mut i: usize = 0;
        while i < names.len()
            invariant
                0 <= i <= names@.len(),
                p@.len() >= 1,
                p@.len() < depth,
                depth as int == max_depth(ks),
                ks == keys_of(notes@),
                pb == strings_bytes(p@),
                strings_bytes(names@) == child_names(ks, pb),
                subdirs@.len() == i,
                forall|j: int| 0 <= j < i ==> dir_ok(#[trigger] subdirs@[j], ks, pb.push(child_names(ks, pb)[j])),
            decreases names@.len() - i,
        {
            let mut q = p.clone();
            let ghost before = q@;
            assert(q@ =~= p@) by {
                assert forall|j: int| 0 <= j < p@.len() implies q@[j] == p@[j] by {
                    assert(cloned::<String>(p[j], q[j]));
                }
            }
            q.push(names[i].clone());
            proof {
                lemma_strings_bytes_push(p@, names@[i as int]);
                assert(q@ == p@.push(names@[i as int]));
            }
            let d = build_dir(notes, q, depth);
            subdirs.push(d);
            i = i + 1;
        }
    } else {
        proof {
            lemma_max_depth(ks);
            lemma_no_names_below(ks, pb);
        }
    }
    let relative_path = join_components(&p);
    let name = p[p.len() - 1].clone();
    let here = notes_in_exec(notes, &p);
    DirNode { relative_path, name, subdirs, notes: here }
}

/// Builds the directory tree of a flat list of notes: the root's
/// subdirectories, sorted by name, and the notes at the root, sorted by stem.
pub fn build_tree(notes: &[NoteId]) -> (r: Tree)
    ensures
        tree_ok(r, keys_of(notes@)),
{
    let ghost ks = keys_of(notes@);
    let depth = max_depth_exec(notes);
    let root: Vec<String> = Vec::new();
    assert(strings_bytes(root@) =~= Seq::<Seq<u8>>::empty());
    let names = child_names_exec(notes, &root);
    let mut subdirs: Vec<DirNode> = Vec::new();
    let mut i: usize = 0;
    while i < names.len()
        invariant
            0 <= i <= names@.len(),
            depth as int == max_depth(ks),
            ks == keys_of(notes@),
            strings_bytes(names@) == child_names(ks, Seq::empty()),
            subdirs@.len() == i,
            forall|j: int| 0 <= j < i ==> dir_ok(#[trigger] subdirs@[j], ks, seq![child_names(ks, Seq::empty())[j]]),
        decreases names@.len() - i,
    {
        let mut q: Vec<String> = Vec::new();
        q.push(names[i].clone());
        assert(strings_bytes(q@) =~= seq![strings_bytes(names@)[i as int]]);
        let d = build_dir(notes, q, depth);
        subdirs.push(d);
        i = i + 1;
    }
    let root_notes = notes_in_exec(notes, &root);
    Tree { subdirs, root_notes }
}

/// Returns every ancestor directory path (`/`-separated, folder-relative) of
/// the note, outermost first: its own parent is included, the root is not.
pub fn ancestor_paths(note: &NoteId) -> (r: Vec<String>)
    ensures
        strings_bytes(r@) == ancestors(note.key()),
{
    let comps = note.components();
    let ghost k = note.key();
    let mut out: Vec<String> = Vec::new();
    if comps.len() == 0 {
        assert(strings_bytes(out@) =~= ancestors(k));
        return out;
    }
    let n = comps.len() - 1;
    let mut prefix: Vec<String> = Vec::new();
    let mut i: usize = 0;
    while i < n
        invariant
            0 <= i <= n,
            n + 1 == comps@.len(),
            strings_bytes(comps@) == k,
            strings_bytes(prefix@) == k.take(i as int),
            strings_bytes(out@) == ancestors(k).take(i as int),
        decreases n - i,
    {
        let ghost before = prefix@;
        prefix.push(comps[i].clone());
        proof {
            lemma_strings_bytes_push(before, comps@[i as int]);
            assert(k.take(i + 1) =~= k.take(i as int).push(k[i as int]));
        }
        let joined = join_components(&prefix);
        let ghost before_out = out@;
        out.push(joined);
        proof {
            lemma_strings_bytes_push(before_out, joined);
            assert(ancestors(k).take(i + 1) =~= ancestors(k).take(i as int).push(join_path(k.take(i + 1))));
        }
        i = i + 1;
    }
    assert(ancestors(k).take(i as int) =~= ancestors(k));
    out
}

} // verus!
