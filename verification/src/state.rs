//! App preferences logic: the startup mode and the excluded-file glob list.
use vstd::prelude::*;
use vstd::utf8::*;
use vstd::string::*;
use crate::text::{utf8_bytes, find_byte, trim_lo, trim_hi, skip_ws, rskip_ws, ws_len_at, ws_len_before, lemma_str_valid, lemma_after_ascii, lemma_trim_boundaries};
use crate::analysis::dedup_first;
use crate::path::{strings_bytes, path_key, same_path};

verus! {

broadcast use vstd::seq::group_seq_axioms;

/// What to open on launch.
#[derive(Debug, Clone, Copy, PartialEq, Eq, Structural)]
pub enum StartupMode {
    /// Reopen the last folder and note, falling back to the default folder.
    ReloadLast,
    /// Boot into a fresh untitled note in the default folder.
    NewNote,
}

impl Default for StartupMode {
    fn default() -> (r: StartupMode)
        ensures
            r == StartupMode::ReloadLast,
    {
        StartupMode::ReloadLast
    }
}

/// What to do on launch.
#[derive(Debug, Clone, Copy, PartialEq, Eq, Structural)]
pub enum StartupAction {
    /// Reopen the last folder, and its last note when it is still there.
    OpenLast,
    /// Open (creating it if needed) the default folder.
    OpenDefault,
    /// Open the default folder and start a new untitled note in it.
    OpenDefaultWithNewNote,
}

/// The launch action for `mode`, given whether the last folder is still a
/// directory: reloading falls back to the default folder when it is not.
pub fn startup_action(mode: StartupMode, last_folder_available: bool) -> (r: StartupAction)
    ensures
        r == match mode {
            StartupMode::ReloadLast => if last_folder_available {
                StartupAction::OpenLast
            } else {
                StartupAction::OpenDefault
            },
            StartupMode::NewNote => StartupAction::OpenDefaultWithNewNote,
        },
{
    match mode {
        StartupMode::ReloadLast => if last_folder_available {
            StartupAction::OpenLast
        } else {
            StartupAction::OpenDefault
        },
        StartupMode::NewNote => StartupAction::OpenDefaultWithNewNote,
    }
}

/// The trimmed, non-empty lines of `b[p..]`, in order.
pub open spec fn glob_lines(b: Seq<u8>, p: int) -> Seq<Seq<u8>>
    decreases b.len() - p + 1,
{
    if p < 0 || p > b.len() {
        Seq::empty()
    } else {
        let k = find_byte(b, p, b.len() as int, 10);
        let e = if k == -1 {
            b.len() as int
        } else {
            k
        };
        let a = trim_lo(b, p, e);
        let z = trim_hi(b, p, e);
        let rest = if k == -1 {
            Seq::empty()
        } else {
            proof {
                crate::text::lemma_find_byte_props(b, p, b.len() as int, 10);
            }
            glob_lines(b, k + 1)
        };
        if a == z {
            rest
        } else {
            seq![b.subrange(a, z)] + rest
        }
    }
}

/// Whether `g` is a glob as the editor keeps it: not empty, without a line
/// break, and neither starting nor ending with a whitespace character.
pub open spec fn bare_glob(g: Seq<u8>) -> bool {
    &&& g.len() > 0
    &&& !g.contains(10u8)
    &&& ws_len_at(g, 0) == 0
    &&& ws_len_before(g, g.len() as int) == 0
}

/// Whitespace at the ends of `b[a..z]` reads the same inside the slice as
/// in `b`, as long as the character lies inside the slice.
proof fn lemma_ws_local(b: Seq<u8>, a: int, z: int)
    requires
        0 <= a <= z <= b.len(),
    ensures
        ({
            let g = b.subrange(a, z);
            &&& ws_len_at(g, 0) > 0 ==> ws_len_at(b, a) == ws_len_at(g, 0) && ws_len_at(g, 0) <= g.len()
            &&& ws_len_at(b, a) > 0 && a + ws_len_at(b, a) <= z ==> ws_len_at(g, 0) == ws_len_at(b, a)
            &&& ws_len_before(g, g.len() as int) > 0 ==> ws_len_before(b, z) == ws_len_before(g, g.len() as int)
                && ws_len_before(g, g.len() as int) <= g.len()
            &&& ws_len_before(b, z) > 0 && z - ws_len_before(b, z) >= a ==> ws_len_before(g, g.len() as int)
                == ws_len_before(b, z)
        }),
{
    let g = b.subrange(a, z);
    let n = g.len() as int;
    if n >= 1 {
        assert(g[0] == b[a]);
        assert(g[n - 1] == b[z - 1]);
    }
    if n >= 2 {
        assert(g[1] == b[a + 1]);
        assert(g[n - 2] == b[z - 2]);
    }
    if n >= 3 {
        assert(g[2] == b[a + 2]);
        assert(g[n - 3] == b[z - 3]);
    }
}

proof fn lemma_skip_ws_bounds(b: Seq<u8>, i: int, hi: int)
    requires
        i <= hi,
    ensures
        i <= skip_ws(b, i, hi) <= hi,
        skip_ws(b, i, hi) < hi ==> ws_len_at(b, skip_ws(b, i, hi)) == 0 || skip_ws(b, i, hi) + ws_len_at(
            b,
            skip_ws(b, i, hi),
        ) > hi,
    decreases hi - i,
{
    if i < hi && ws_len_at(b, i) > 0 && i + ws_len_at(b, i) <= hi {
        lemma_skip_ws_bounds(b, i + ws_len_at(b, i), hi);
    }
}

proof fn lemma_rskip_ws_bounds(b: Seq<u8>, lo: int, j: int)
    requires
        0 <= lo <= j,
    ensures
        lo <= rskip_ws(b, lo, j) <= j,
        lo < rskip_ws(b, lo, j) ==> ws_len_before(b, rskip_ws(b, lo, j)) == 0 || rskip_ws(b, lo, j)
            - ws_len_before(b, rskip_ws(b, lo, j)) < lo,
    decreases j - lo,
{
    if j > lo && ws_len_before(b, j) > 0 && j - ws_len_before(b, j) >= lo {
        lemma_rskip_ws_bounds(b, lo, j - ws_len_before(b, j));
    }
}

proof fn lemma_glob_lines_bare(b: Seq<u8>, p: int)
    ensures
        forall|i: int| 0 <= i < glob_lines(b, p).len() ==> bare_glob(#[trigger] glob_lines(b, p)[i]),
    decreases b.len() - p + 1,
{
    if 0 <= p <= b.len() {
        let k = find_byte(b, p, b.len() as int, 10);
        crate::text::lemma_find_byte_props(b, p, b.len() as int, 10);
        let e = if k == -1 {
            b.len() as int
        } else {
            k
        };
        let a = trim_lo(b, p, e);
        let z = trim_hi(b, p, e);
        lemma_skip_ws_bounds(b, p, e);
        lemma_rskip_ws_bounds(b, a, e);
        let rest = if k == -1 {
            Seq::<Seq<u8>>::empty()
        } else {
            lemma_glob_lines_bare(b, k + 1);
            glob_lines(b, k + 1)
        };
        if a != z {
            let g = b.subrange(a, z);
            lemma_ws_local(b, a, z);
            assert(!g.contains(10u8)) by {
                assert forall|j: int| 0 <= j < g.len() implies g[j] != 10u8 by {
                    assert(g[j] == b[a + j]);
                }
            }
            assert(bare_glob(g));
            assert(glob_lines(b, p) == seq![g] + rest);
            assert forall|i: int| 0 <= i < glob_lines(b, p).len() implies bare_glob(#[trigger] glob_lines(b, p)[i]) by {
                if i > 0 {
                    assert(glob_lines(b, p)[i] == rest[i - 1]);
                }
            }
        } else {
            assert(glob_lines(b, p) == rest);
        }
    }
}

proof fn lemma_dedup_first_props(s: Seq<Seq<u8>>)
    ensures
        dedup_first(s).no_duplicates(),
        forall|x: Seq<u8>| dedup_first(s).contains(x) ==> s.contains(x),
    decreases s.len(),
{
    if s.len() > 0 {
        let d = dedup_first(s.drop_last());
        lemma_dedup_first_props(s.drop_last());
        assert forall|x: Seq<u8>| s.drop_last().contains(x) implies s.contains(x) by {
            let j = choose|j: int| 0 <= j < s.drop_last().len() && s.drop_last()[j] == x;
            assert(s[j] == x);
        }
        if !d.contains(s.last()) {
            assert(d.push(s.last()).no_duplicates()) by {
                assert forall|i: int, j: int|
                    0 <= i < d.push(s.last()).len() && 0 <= j < d.push(s.last()).len() && i != j implies
                    d.push(s.last())[i] != d.push(s.last())[j] by {
                    if i == d.len() {
                        assert(d.contains(d[j]));
                    } else if j == d.len() {
                        assert(d.contains(d[i]));
                    }
                }
            }
            assert forall|x: Seq<u8>| d.push(s.last()).contains(x) implies s.contains(x) by {
                let j = choose|j: int| 0 <= j < d.push(s.last()).len() && d.push(s.last())[j] == x;
                if j < d.len() {
                    assert(d.contains(x));
                } else {
                    assert(s[s.len() - 1] == x);
                }
            }
        }
    }
}

/// The globs parsed from any editor text are distinct, and each is a bare
/// glob: not empty, without a line break, and neither starting nor ending
/// with whitespace.
pub proof fn lemma_parsed_globs_are_clean(b: Seq<u8>)
    ensures
        dedup_first(glob_lines(b, 0)).no_duplicates(),
        forall|i: int|
            0 <= i < dedup_first(glob_lines(b, 0)).len() ==> bare_glob(#[trigger] dedup_first(glob_lines(b, 0))[i]),
{
    let ls = glob_lines(b, 0);
    let d = dedup_first(ls);
    lemma_glob_lines_bare(b, 0);
    lemma_dedup_first_props(ls);
    assert forall|i: int| 0 <= i < d.len() implies bare_glob(#[trigger] d[i]) by {
        assert(d.contains(d[i]));
        assert(ls.contains(d[i]));
        let j = choose|j: int| 0 <= j < ls.len() && ls[j] == d[i];
        assert(ls[j] == d[i]);
    }
}

/// Parses the Preferences editor text into glob patterns: one per line,
/// trimmed, blank lines dropped, repeats dropped.
pub fn parse_excluded_file_globs(text: &str) -> (r: Vec<String>)
    ensures
        strings_bytes(r@) == dedup_first(glob_lines(text.spec_bytes(), 0)),
{
    let b = text.as_bytes();
    proof {
        lemma_str_valid(text);
        is_char_boundary_start_end_of_seq(b@);
    }
    let ghost mut done: Seq<Seq<u8>> = Seq::empty();
    let mut out: Vec<String> = Vec::new();
    let mut p: usize = 0;
    loop
        invariant
            p <= b@.len(),
            b@ == text.spec_bytes(),
            valid_utf8(b@),
            is_char_boundary(b@, p as int),
            is_char_boundary(b@, b@.len() as int),
            glob_lines(b@, 0) == done + glob_lines(b@, p as int),
            strings_bytes(out@) == dedup_first(done),
        decreases b@.len() - p + 1,
    {
        let k = crate::text::find_byte_exec(b, p, b.len(), 10);
        proof {
            crate::text::lemma_find_byte_props(b@, p as int, b@.len() as int, 10);
        }
        let e = match k {
            Some(k) => k,
            None => b.len(),
        };
        proof {
            if e < b@.len() {
                lemma_after_ascii(b@, e as int);
            }
            lemma_trim_boundaries(b@, p as int, e as int);
        }
        let (a, z) = crate::text::trim_range(b, p, e);
        if a < z {
            let piece = crate::text::str_slice(text, a, z);
            let ghost x = b@.subrange(a as int, z as int);
            let mut seen = false;
            let mut i: usize = 0;
            while i < out.len()
                invariant
                    0 <= i <= out@.len(),
                    piece.spec_bytes() == x,
                    !seen ==> forall|j: int| 0 <= j < i ==> strings_bytes(out@)[j] != x,
                    seen ==> strings_bytes(out@).contains(x),
                decreases out@.len() - i,
            {
                if !seen && crate::text::str_eq(out[i].as_str(), piece) {
                    seen = true;
                    assert(strings_bytes(out@)[i as int] == x);
                }
                i = i + 1;
            }
            if !seen {
                let owned = crate::text::to_owned_string(piece);
                let ghost before = out@;
                out.push(owned);
                proof {
                    crate::path::lemma_strings_bytes_push(before, owned);
                }
            }
            proof {
                assert(done.push(x).drop_last() =~= done);
                done = done.push(x);
            }
        }
        match k {
            Some(kk) => {
                proof {
                    let rest = glob_lines(b@, kk + 1);
                    if a < z {
                        assert(glob_lines(b@, p as int) == seq![b@.subrange(a as int, z as int)] + rest);
                        assert(done.drop_last() + glob_lines(b@, p as int) =~= done + rest);
                    }
                }
                p = kk + 1;
            },
            None => {
                proof {
                    if a < z {
                        assert(done.drop_last() + glob_lines(b@, p as int) =~= done);
                    } else {
                        assert(done + glob_lines(b@, p as int) =~= done);
                    }
                }
                return out;
            },
        }
    }
}

/// Schema version of the app state this build writes.
pub const CURRENT_STATE_VERSION: u32 = 1;

/// Checks the schema version of loaded app state: a version newer than this
/// build supports is refused with `(found, supported)`.
pub fn check_state_version(found: u32) -> (r: Result<(), (u32, u32)>)
    ensures
        found <= CURRENT_STATE_VERSION <==> r is Ok,
        r matches Err(e) ==> e == (found, CURRENT_STATE_VERSION),
{
    if found > CURRENT_STATE_VERSION {
        Err((found, CURRENT_STATE_VERSION))
    } else {
        Ok(())
    }
}

/// The globs excluded by default: `.git/**`, `.DS_Store` and `node_modules/**`.
pub fn default_excluded_file_globs() -> (r: Vec<String>)
    ensures
        r@.len() == 3,
        r@[0]@ == ".git/**"@,
        r@[1]@ == ".DS_Store"@,
        r@[2]@ == "node_modules/**"@,
{
    let mut out: Vec<String> = Vec::new();
    out.push(String::from_str(".git/**"));
    out.push(String::from_str(".DS_Store"));
    out.push(String::from_str("node_modules/**"));
    out
}

/// How many recent folders are remembered.
pub const RECENT_FOLDERS_CAP: usize = 10;

/// Auto-save debounce bounds and default, in seconds.
pub const MIN_AUTO_SAVE_DEBOUNCE_SECS: u32 = 1;
pub const MAX_AUTO_SAVE_DEBOUNCE_SECS: u32 = 60;
pub const DEFAULT_AUTO_SAVE_DEBOUNCE_SECS: u32 = 5;

/// The auto-save debounce clamped to its supported range.
pub fn clamp_auto_save_debounce_secs(secs: u32) -> (r: u32)
    ensures
        r == (if secs < MIN_AUTO_SAVE_DEBOUNCE_SECS {
            MIN_AUTO_SAVE_DEBOUNCE_SECS
        } else if secs > MAX_AUTO_SAVE_DEBOUNCE_SECS {
            MAX_AUTO_SAVE_DEBOUNCE_SECS
        } else {
            secs
        }),
{
    if secs < MIN_AUTO_SAVE_DEBOUNCE_SECS {
        MIN_AUTO_SAVE_DEBOUNCE_SECS
    } else if secs > MAX_AUTO_SAVE_DEBOUNCE_SECS {
        MAX_AUTO_SAVE_DEBOUNCE_SECS
    } else {
        secs
    }
}

/// `s` without the entries that are the same path as `f`, in order.
pub open spec fn without(s: Seq<Seq<u8>>, f: Seq<u8>) -> Seq<Seq<u8>>
    decreases s.len(),
{
    if s.len() == 0 {
        Seq::empty()
    } else if path_key(s.last()) == path_key(f) {
        without(s.drop_last(), f)
    } else {
        without(s.drop_last(), f).push(s.last())
    }
}

/// Whether no two entries of `s` are the same path.
pub open spec fn distinct_paths(s: Seq<Seq<u8>>) -> bool {
    forall|i: int, j: int| 0 <= i < s.len() && 0 <= j < s.len() && i != j ==> path_key(#[trigger] s[i]) != path_key(
        #[trigger] s[j],
    )
}

/// `s` cut to at most `n` entries.
pub open spec fn capped<A>(s: Seq<A>, n: int) -> Seq<A> {
    if s.len() <= n {
        s
    } else {
        s.take(n)
    }
}

proof fn lemma_without(s: Seq<Seq<u8>>, f: Seq<u8>)
    ensures
        forall|x: Seq<u8>| #[trigger] without(s, f).contains(x) ==> s.contains(x) && path_key(x) != path_key(f),
        distinct_paths(s) ==> distinct_paths(without(s, f)),
    decreases s.len(),
{
    if s.len() > 0 {
        let d = s.drop_last();
        let w = without(d, f);
        lemma_without(d, f);
        assert forall|x: Seq<u8>| #[trigger] without(s, f).contains(x) implies s.contains(x) && path_key(x) != path_key(f) by {
            let k = choose|k: int| 0 <= k < without(s, f).len() && without(s, f)[k] == x;
            if path_key(s.last()) != path_key(f) && k == w.len() {
                assert(without(s, f) == w.push(s.last()));
                assert(s[s.len() - 1] == x);
            } else {
                if path_key(s.last()) != path_key(f) {
                    assert(without(s, f) == w.push(s.last()));
                }
                assert(w[k] == x);
                assert(w.contains(x));
                let i = choose|i: int| 0 <= i < d.len() && d[i] == x;
                assert(s[i] == x);
            }
        }
        if distinct_paths(s) {
            assert(distinct_paths(d)) by {
                assert forall|i: int, j: int| 0 <= i < d.len() && 0 <= j < d.len() && i != j implies path_key(
                    #[trigger] d[i],
                ) != path_key(#[trigger] d[j]) by {
                    assert(d[i] == s[i] && d[j] == s[j]);
                }
            }
            if path_key(s.last()) != path_key(f) {
                let v = w.push(s.last());
                assert(without(s, f) == v);
                assert forall|i: int, j: int| 0 <= i < v.len() && 0 <= j < v.len() && i != j implies path_key(
                    #[trigger] v[i],
                ) != path_key(#[trigger] v[j]) by {
                    if i < w.len() && j < w.len() {
                        assert(v[i] == w[i] && v[j] == w[j]);
                    } else {
                        let m = if i < w.len() { i } else { j };
                        assert(v[m] == w[m]);
                        assert(w.contains(w[m]));
                        let q = choose|q: int| 0 <= q < d.len() && d[q] == w[m];
                        assert(s[q] == w[m]);
                        assert(path_key(s[q]) != path_key(s[s.len() - 1]));
                    }
                }
            }
        }
    }
}

/// The recent folders never name one folder twice: recording a folder into
/// a list where no two entries are the same path gives such a list, with
/// that folder first.
pub proof fn lemma_recent_folders_stay_distinct(recent: Seq<Seq<u8>>, folder: Seq<u8>)
    requires
        distinct_paths(recent),
    ensures
        distinct_paths(capped(seq![folder] + without(recent, folder), RECENT_FOLDERS_CAP as int)),
        capped(seq![folder] + without(recent, folder), RECENT_FOLDERS_CAP as int)[0] == folder,
{
    lemma_without(recent, folder);
    let w = without(recent, folder);
    let full = seq![folder] + w;
    assert forall|i: int, j: int| 0 <= i < full.len() && 0 <= j < full.len() && i != j implies path_key(
        #[trigger] full[i],
    ) != path_key(#[trigger] full[j]) by {
        if i == 0 {
            assert(full[j] == w[j - 1]);
            assert(w.contains(w[j - 1]));
        } else if j == 0 {
            assert(full[i] == w[i - 1]);
            assert(w.contains(w[i - 1]));
        } else {
            assert(full[i] == w[i - 1] && full[j] == w[j - 1]);
        }
    }
    let c = capped(full, RECENT_FOLDERS_CAP as int);
    assert forall|i: int, j: int| 0 <= i < c.len() && 0 <= j < c.len() && i != j implies path_key(#[trigger] c[i])
        != path_key(#[trigger] c[j]) by {
        assert(c[i] == full[i] && c[j] == full[j]);
    }
}

/// Records that `folder` was opened: it moves to the front of the recent
/// folders, every entry that is the same path leaves, and the list keeps at
/// most `RECENT_FOLDERS_CAP` entries.
pub fn record_recent_folder(recent: &mut Vec<String>, folder: &str)
    ensures
        strings_bytes(final(recent)@) == capped(
            seq![folder.spec_bytes()] + without(strings_bytes(old(recent)@), folder.spec_bytes()),
            RECENT_FOLDERS_CAP as int,
        ),
{
    let ghost orig = strings_bytes(recent@);
    let ghost fb = folder.spec_bytes();
    let mut out: Vec<String> = Vec::new();
    let first = crate::text::to_owned_string(folder);
    out.push(first);
    let mut i: usize = 0;
    assert(strings_bytes(out@) =~= seq![fb] + without(orig.take(0), fb));
    while i < recent.len()
        invariant
            0 <= i <= recent@.len(),
            orig == strings_bytes(recent@),
            fb == folder.spec_bytes(),
            recent@ == old(recent)@,
            strings_bytes(out@) == seq![fb] + without(orig.take(i as int), fb),
        decreases recent@.len() - i,
    {
        assert(orig.take(i + 1).drop_last() =~= orig.take(i as int));
        assert(orig.take(i + 1).last() == orig[i as int]);
        if !same_path(recent[i].as_str(), folder) {
            let ghost before = out@;
            let item = recent[i].clone();
            out.push(item);
            proof {
                crate::path::lemma_strings_bytes_push(before, item);
                assert(seq![fb] + without(orig.take(i as int), fb).push(orig[i as int]) =~= (seq![fb] + without(
                    orig.take(i as int),
                    fb,
                )).push(orig[i as int]));
            }
        }
        i = i + 1;
    }
    assert(orig.take(i as int) =~= orig);
    if out.len() > RECENT_FOLDERS_CAP {
        out.truncate(RECENT_FOLDERS_CAP);
    }
    *recent = out;
    proof {
        let full = seq![fb] + without(orig, fb);
        if full.len() > RECENT_FOLDERS_CAP {
            assert(strings_bytes(recent@) =~= full.take(RECENT_FOLDERS_CAP as int));
        }
    }
}

/// Cuts a loaded list of recent folders to `RECENT_FOLDERS_CAP` entries.
pub fn cap_recent_folders(recent: &mut Vec<String>)
    ensures
        final(recent)@ == capped(old(recent)@, RECENT_FOLDERS_CAP as int),
{
    if recent.len() > RECENT_FOLDERS_CAP {
        recent.truncate(RECENT_FOLDERS_CAP);
    }
}

/// The lines `globs` joined by `\n`.
pub open spec fn joined_lines(globs: Seq<Seq<u8>>) -> Seq<u8>
    decreases globs.len(),
{
    if globs.len() == 0 {
        Seq::empty()
    } else if globs.len() == 1 {
        globs[0]
    } else {
        joined_lines(globs.drop_last()) + seq![10u8] + globs.last()
    }
}

/// Normalises a loaded list of excluded-file globs as the Preferences editor
/// would: the list joined by lines, then parsed again.
pub fn normalize_excluded_file_globs(globs: &[String]) -> (r: Vec<String>)
    ensures
        strings_bytes(r@) == dedup_first(glob_lines(joined_lines(strings_bytes(globs@)), 0)),
{
    let mut text = String::new();
    let nl = "\n";
    proof {
        reveal_strlit("\n");
        crate::text::lemma_ascii_str(nl);
        assert(nl.spec_bytes() =~= seq![10u8]);
    }
    let ghost gs = strings_bytes(globs@);
    let mut i: usize = 0;
    assert(utf8_bytes(text@) =~= Seq::<u8>::empty());
    while i < globs.len()
        invariant
            0 <= i <= globs@.len(),
            gs == strings_bytes(globs@),
            nl.spec_bytes() == seq![10u8],
            utf8_bytes(text@) == joined_lines(gs.take(i as int)),
        decreases globs@.len() - i,
    {
        assert(gs.take(i + 1).drop_last() =~= gs.take(i as int));
        if i > 0 {
            crate::text::push_str(&mut text, nl);
        } else {
            assert(gs.take(1) =~= seq![gs[0]]);
        }
        crate::text::push_str(&mut text, globs[i].as_str());
        i = i + 1;
    }
    assert(gs.take(i as int) =~= gs);
    parse_excluded_file_globs(text.as_str())
}

proof fn lemma_find_byte_at(b: Seq<u8>, p: int, e: int, c: u8)
    requires
        0 <= p <= e <= b.len(),
        forall|j: int| p <= j < e ==> b[j] != c,
        e < b.len() ==> b[e] == c,
    ensures
        find_byte(b, p, b.len() as int, c) == if e < b.len() {
            e
        } else {
            -1
        },
    decreases e - p,
{
    if p < e {
        lemma_find_byte_at(b, p + 1, e, c);
    }
}

/// A bare glob `g` at `p`, ending the text or followed by a line break, is
/// read back as the next glob line.
proof fn lemma_glob_step(b: Seq<u8>, p: int, g: Seq<u8>)
    requires
        0 <= p,
        p + g.len() <= b.len(),
        b.subrange(p, p + g.len()) == g,
        bare_glob(g),
        p + g.len() < b.len() ==> b[p + g.len()] == 10u8,
    ensures
        glob_lines(b, p) == seq![g] + if p + g.len() < b.len() {
            glob_lines(b, p + g.len() + 1)
        } else {
            Seq::<Seq<u8>>::empty()
        },
{
    let e = p + g.len();
    assert forall|j: int| p <= j < e implies b[j] != 10u8 by {
        assert(b[j] == g[j - p]);
        assert(g.contains(g[j - p]));
    }
    lemma_find_byte_at(b, p, e, 10u8);
    lemma_ws_local(b, p, e);
    assert(skip_ws(b, p, e) == p);
    assert(trim_lo(b, p, e) == p);
    assert(rskip_ws(b, p, e) == e);
    assert(trim_hi(b, p, e) == e);
}

/// `h` then a line break then the lines of `t`: the lines `h` and `t`, joined.
proof fn lemma_joined_cons(h: Seq<u8>, t: Seq<Seq<u8>>)
    requires
        t.len() > 0,
    ensures
        joined_lines(seq![h] + t) == h + seq![10u8] + joined_lines(t),
    decreases t.len(),
{
    let ht = seq![h] + t;
    assert(ht.len() >= 2);
    assert(ht.last() == t.last());
    if t.len() == 1 {
        assert(ht.drop_last() =~= seq![h]);
        assert(joined_lines(seq![h]) == h);
        assert(joined_lines(ht) == joined_lines(ht.drop_last()) + seq![10u8] + ht.last());
        assert(joined_lines(t) == t[0]);
    } else {
        assert(ht.drop_last() =~= seq![h] + t.drop_last());
        lemma_joined_cons(h, t.drop_last());
        assert(joined_lines(ht) == joined_lines(ht.drop_last()) + seq![10u8] + ht.last());
        assert(joined_lines(t) == joined_lines(t.drop_last()) + seq![10u8] + t.last());
        assert(h + seq![10u8] + joined_lines(t.drop_last()) + seq![10u8] + t.last() =~= h + seq![10u8] + (
        joined_lines(t.drop_last()) + seq![10u8] + t.last()));
    }
}

/// Bare globs joined by line breaks after any prefix read back as themselves.
proof fn lemma_glob_lines_of_joined(x: Seq<u8>, gs: Seq<Seq<u8>>)
    requires
        forall|i: int| 0 <= i < gs.len() ==> bare_glob(#[trigger] gs[i]),
    ensures
        glob_lines(x + joined_lines(gs), x.len() as int) == gs,
    decreases gs.len(),
{
    let b = x + joined_lines(gs);
    if gs.len() == 0 {
        assert(b =~= x);
        lemma_find_byte_at(b, x.len() as int, x.len() as int, 10u8);
        assert(glob_lines(b, x.len() as int) =~= Seq::<Seq<u8>>::empty());
    } else {
        let h = gs[0];
        assert(bare_glob(h));
        let t = gs.drop_first();
        assert(gs =~= seq![h] + t);
        if t.len() == 0 {
            assert(joined_lines(gs) == h);
            assert(b.subrange(x.len() as int, (x.len() + h.len()) as int) =~= h);
            lemma_glob_step(b, x.len() as int, h);
            assert(glob_lines(b, x.len() as int) =~= gs);
        } else {
            lemma_joined_cons(h, t);
            let x2 = x + h + seq![10u8];
            assert(b =~= x2 + joined_lines(t));
            assert(b.subrange(x.len() as int, (x.len() + h.len()) as int) =~= h);
            assert(b[(x.len() + h.len()) as int] == 10u8);
            lemma_glob_step(b, x.len() as int, h);
            assert forall|i: int| 0 <= i < t.len() implies bare_glob(#[trigger] t[i]) by {
                assert(t[i] == gs[i + 1]);
            }
            lemma_glob_lines_of_joined(x2, t);
            assert(x2.len() == x.len() + h.len() + 1);
            assert(glob_lines(b, x.len() as int) =~= seq![h] + t);
        }
    }
}

proof fn lemma_dedup_first_distinct(s: Seq<Seq<u8>>)
    requires
        s.no_duplicates(),
    ensures
        dedup_first(s) == s,
    decreases s.len(),
{
    if s.len() > 0 {
        let d = s.drop_last();
        assert(d.no_duplicates()) by {
            assert forall|i: int, j: int| 0 <= i < d.len() && 0 <= j < d.len() && i != j implies d[i] != d[j] by {
                assert(d[i] == s[i] && d[j] == s[j]);
            }
        }
        lemma_dedup_first_distinct(d);
        assert(!d.contains(s.last())) by {
            if d.contains(s.last()) {
                let j = choose|j: int| 0 <= j < d.len() && d[j] == s.last();
                assert(s[j] == s[s.len() - 1]);
            }
        }
        assert(d.push(s.last()) =~= s);
    }
}

/// Parsing the editor text gives globs that normalising leaves as they are:
/// joining them by lines and parsing again gives the same list back.
pub proof fn lemma_normalizing_parsed_globs_changes_nothing(b: Seq<u8>)
    ensures
        dedup_first(glob_lines(joined_lines(dedup_first(glob_lines(b, 0))), 0)) == dedup_first(glob_lines(b, 0)),
{
    let gs = dedup_first(glob_lines(b, 0));
    lemma_parsed_globs_are_clean(b);
    lemma_glob_lines_of_joined(Seq::empty(), gs);
    assert(Seq::<u8>::empty() + joined_lines(gs) =~= joined_lines(gs));
    lemma_dedup_first_distinct(gs);
}

} // verus!
