//! Live-preview pre-pass: rewrites wiki links and image embeds into
//! CommonMark links and images, leaving fenced code blocks untouched.
//!
//! - `[[Note]]`              → `[Note](sideromelane://note/Note)`
//! - `[[Note|Alias]]`        → `[Alias](sideromelane://note/Note)`
//! - `[[Note#anchor]]`       → `[Note](sideromelane://note/Note#anchor)`
//! - `[[Note#anchor|Alias]]` → `[Alias](sideromelane://note/Note#anchor)`
//! - `![[image.png]]`        → `![image](file://<path of the image>)`
//!
//! Image embeds whose target is not a valid asset file name stay as they
//! are. The path of each remaining image is resolved by the caller, who
//! checks that it does not escape the folder root; an image the caller
//! could not place safely stays as it is too.
use vstd::prelude::*;
use vstd::utf8::*;
use vstd::string::*;
use crate::analysis::{
    non_fence, non_fence_ranges, ranges_ok, ranges_view, lemma_non_fence_ok, link_of, opt_bytes,
    open_brackets, close_brackets, is_embed_delim, parse_wiki_link_inner,
};
use crate::asset::{asset_name_error, sanitize_asset_filename};
use crate::editor::{NOTE_LINK_SCHEME, scheme_bytes};
use crate::path::strings_bytes;
use crate::text::{
    matches_at, utf8_bytes, trim_lo, trim_hi, lemma_str_valid, lemma_after_ascii, lemma_trim_boundaries,
    trim_range, push_str, str_slice,
};

verus! {

broadcast use vstd::seq::group_seq_axioms;

// ---------------------------------------------------------------------------
// The model
// ---------------------------------------------------------------------------
/// The bytes of `image`, the alt text of an image without an alias.
pub open spec fn default_alt() -> Seq<u8> {
    seq![0x69u8, 0x6D, 0x61, 0x67, 0x65]
}

/// The bytes of `file://`.
pub open spec fn file_scheme() -> Seq<u8> {
    seq![0x66u8, 0x69, 0x6C, 0x65, 0x3A, 0x2F, 0x2F]
}

/// The wiki link `[[inner]]`, inner being `b[ia..iz]`, as a CommonMark link:
/// the alias (or the target) as the text, the note URL as the destination.
/// A link with an empty target is written back as it was.
pub open spec fn link_piece(b: Seq<u8>, ia: int, iz: int) -> Seq<u8> {
    let l = link_of(b, ia, iz);
    if l.0.len() == 0 {
        open_brackets() + b.subrange(ia, iz) + close_brackets()
    } else {
        let text = match l.2 {
            Some(a) => a,
            None => l.0,
        };
        let anchor = match l.1 {
            Some(h) => seq![0x23u8] + h,
            None => Seq::empty(),
        };
        seq![0x5Bu8] + text + seq![0x5Du8, 0x28] + scheme_bytes() + l.0 + anchor + seq![0x29u8]
    }
}

/// Whether the image embed `![[inner]]`, inner being `b[ia..iz]`, names a
/// valid asset file.
pub open spec fn embed_named(b: Seq<u8>, ia: int, iz: int) -> bool {
    asset_name_error(link_of(b, ia, iz).0) is None
}

/// The image embed `![[inner]]`, inner being `b[ia..iz]`, resolved to `path`:
/// a CommonMark image with the alias (or `image`) as its alt text, or the
/// embed as it was when there is no path.
pub open spec fn image_piece(b: Seq<u8>, ia: int, iz: int, path: Option<Seq<u8>>) -> Seq<u8> {
    let l = link_of(b, ia, iz);
    let alt = match l.2 {
        Some(a) => a,
        None => default_alt(),
    };
    match path {
        Some(p) => seq![0x21u8, 0x5B] + alt + seq![0x5Du8, 0x28] + file_scheme() + p + seq![0x29u8],
        None => seq![0x21u8] + open_brackets() + b.subrange(ia, iz) + close_brackets(),
    }
}

/// The path given for the `k`-th named image, if any.
pub open spec fn path_at(paths: Seq<Option<Seq<u8>>>, k: int) -> Option<Seq<u8>> {
    if 0 <= k < paths.len() {
        paths[k]
    } else {
        None
    }
}

/// Whether a `[[` at `start` is an image embed of the segment starting at `lo`:
/// a `!` right before it, itself at the start of the segment or after
/// whitespace, `(`, `[` or `>`.
pub open spec fn is_image_at(b: Seq<u8>, lo: int, start: int) -> bool {
    start > lo && b[start - 1] == 0x21 && (start - 1 == lo || is_embed_delim(b[start - 2]))
}

/// One wiki link or embed `[[..]]` at `start..end + 2` of the segment
/// starting at `lo`: where the text before it ends (before the `!` of an
/// image), what it is rewritten to, and its target if it is a named image;
/// `k` images were named before it.
#[verifier::opaque]
pub open spec fn link_step(
    b: Seq<u8>,
    lo: int,
    start: int,
    end: int,
    paths: Seq<Option<Seq<u8>>>,
    k: int,
) -> (int, Seq<u8>, Seq<Seq<u8>>) {
    let ia = trim_lo(b, start + 2, end);
    let iz = trim_hi(b, start + 2, end);
    let img = is_image_at(b, lo, start);
    let ce = if img {
        start - 1
    } else {
        start
    };
    if ia == iz {
        (ce, b.subrange(ce, end + 2), Seq::empty())
    } else if img {
        if embed_named(b, ia, iz) {
            (ce, image_piece(b, ia, iz, path_at(paths, k)), seq![link_of(b, ia, iz).0])
        } else {
            (ce, image_piece(b, ia, iz, None), Seq::empty())
        }
    } else {
        (ce, link_piece(b, ia, iz), Seq::empty())
    }
}

/// The rewritten segment `b[lo..hi]` from `cur`, and the targets of the named
/// image embeds in it; `k` images were named before `cur`.
pub open spec fn preview_seg(
    b: Seq<u8>,
    lo: int,
    hi: int,
    cur: int,
    paths: Seq<Option<Seq<u8>>>,
    k: int,
) -> (Seq<u8>, Seq<Seq<u8>>)
    decreases hi - cur,
{
    let start = crate::text::find_within(b, cur, hi, open_brackets());
    if cur < lo || hi > b.len() || cur > hi {
        (Seq::empty(), Seq::empty())
    } else if start == -1 {
        (b.subrange(cur, hi), Seq::empty())
    } else {
        let ts = start + 2;
        let end = crate::text::find_within(b, ts, hi, close_brackets());
        if end == -1 {
            (b.subrange(cur, hi), Seq::empty())
        } else {
            proof {
                crate::text::lemma_find_within(b, cur, hi, open_brackets());
                crate::text::lemma_find_within(b, ts, hi, close_brackets());
            }
            let st = link_step(b, lo, start, end, paths, k);
            let rest = preview_seg(b, lo, hi, end + 2, paths, k + st.2.len());
            (b.subrange(cur, st.0) + st.1 + rest.0, st.2 + rest.1)
        }
    }
}

/// The rewritten text from range `j` on, with `last` the end of the part
/// already written and `k` images named so far.
pub open spec fn preview_over(
    b: Seq<u8>,
    rs: Seq<(int, int)>,
    j: int,
    last: int,
    paths: Seq<Option<Seq<u8>>>,
    k: int,
) -> (Seq<u8>, Seq<Seq<u8>>)
    decreases rs.len() - j,
{
    if j < 0 || j >= rs.len() {
        (b.subrange(last, b.len() as int), Seq::empty())
    } else {
        let seg = preview_seg(b, rs[j].0, rs[j].1, rs[j].0, paths, k);
        let rest = preview_over(b, rs, j + 1, rs[j].1, paths, k + seg.1.len());
        (b.subrange(last, rs[j].0) + seg.0 + rest.0, seg.1 + rest.1)
    }
}

/// The preview text of `b` with the image paths `paths`, and the targets of
/// the named image embeds, in order; the `k`-th named image takes `paths[k]`.
pub open spec fn preview(b: Seq<u8>, paths: Seq<Option<Seq<u8>>>) -> (Seq<u8>, Seq<Seq<u8>>) {
    preview_over(b, non_fence(b), 0, 0, paths, 0)
}

/// Which image embeds name an asset does not depend on the paths given
/// for them: the targets [`image_embed_targets`] lists are those that
/// [`transform_wiki_links`] places, whatever paths it is handed.
pub proof fn lemma_targets_independent_of_paths(
    b: Seq<u8>,
    p1: Seq<Option<Seq<u8>>>,
    p2: Seq<Option<Seq<u8>>>,
)
    ensures
        preview(b, p1).1 == preview(b, p2).1,
{
    lemma_over_targets(b, non_fence(b), 0, 0, p1, 0, p2, 0);
}

proof fn lemma_seg_targets(
    b: Seq<u8>,
    lo: int,
    hi: int,
    cur: int,
    p1: Seq<Option<Seq<u8>>>,
    k1: int,
    p2: Seq<Option<Seq<u8>>>,
    k2: int,
)
    ensures
        preview_seg(b, lo, hi, cur, p1, k1).1 == preview_seg(b, lo, hi, cur, p2, k2).1,
    decreases hi - cur,
{
    reveal(link_step);
    let start = crate::text::find_within(b, cur, hi, open_brackets());
    if cur < lo || hi > b.len() || cur > hi || start == -1 {
    } else {
        let end = crate::text::find_within(b, start + 2, hi, close_brackets());
        if end != -1 {
            crate::text::lemma_find_within(b, cur, hi, open_brackets());
            crate::text::lemma_find_within(b, start + 2, hi, close_brackets());
            let s1 = link_step(b, lo, start, end, p1, k1);
            let s2 = link_step(b, lo, start, end, p2, k2);
            assert(s1.2 == s2.2);
            lemma_seg_targets(b, lo, hi, end + 2, p1, k1 + s1.2.len(), p2, k2 + s2.2.len());
        }
    }
}

proof fn lemma_over_targets(
    b: Seq<u8>,
    rs: Seq<(int, int)>,
    j: int,
    last: int,
    p1: Seq<Option<Seq<u8>>>,
    k1: int,
    p2: Seq<Option<Seq<u8>>>,
    k2: int,
)
    ensures
        preview_over(b, rs, j, last, p1, k1).1 == preview_over(b, rs, j, last, p2, k2).1,
    decreases rs.len() - j,
{
    if 0 <= j < rs.len() {
        lemma_seg_targets(b, rs[j].0, rs[j].1, rs[j].0, p1, k1, p2, k2);
        let s1 = preview_seg(b, rs[j].0, rs[j].1, rs[j].0, p1, k1);
        let s2 = preview_seg(b, rs[j].0, rs[j].1, rs[j].0, p2, k2);
        lemma_over_targets(b, rs, j + 1, rs[j].1, p1, k1 + s1.1.len(), p2, k2 + s2.1.len());
    }
}

proof fn lemma_no_open_found(b: Seq<u8>, from: int, to: int)
    requires
        forall|k: int| !matches_at(b, k, open_brackets()),
    ensures
        crate::text::find_within(b, from, to, open_brackets()) == -1,
    decreases to - from + 1,
{
    if !(from < 0 || from + 2 > to || to > b.len()) {
        lemma_no_open_found(b, from + 1, to);
    }
}

proof fn lemma_plain_over(b: Seq<u8>, rs: Seq<(int, int)>, j: int, last: int, p: Seq<Option<Seq<u8>>>, k: int)
    requires
        forall|x: int| !matches_at(b, x, open_brackets()),
        ranges_ok(b, rs),
        0 <= j <= rs.len(),
        0 <= last <= b.len(),
        j < rs.len() ==> last <= rs[j].0,
    ensures
        preview_over(b, rs, j, last, p, k).0 == b.subrange(last, b.len() as int),
    decreases rs.len() - j,
{
    if j < rs.len() {
        let lo = rs[j].0;
        let hi = rs[j].1;
        lemma_no_open_found(b, lo, hi);
        assert(preview_seg(b, lo, hi, lo, p, k) == (b.subrange(lo, hi), Seq::<Seq<u8>>::empty()));
        if j + 1 < rs.len() {
            assert(rs[j].1 <= rs[j + 1].0);
        }
        lemma_plain_over(b, rs, j + 1, hi, p, k);
        assert(b.subrange(last, lo) + b.subrange(lo, hi) + b.subrange(hi, b.len() as int) =~= b.subrange(last, b.len() as int));
    }
}

/// Text without any `[[` is shown as it is.
pub proof fn lemma_text_without_links_unchanged(b: Seq<u8>, paths: Seq<Option<Seq<u8>>>)
    requires
        valid_utf8(b),
        forall|x: int| !matches_at(b, x, open_brackets()),
    ensures
        preview(b, paths).0 == b,
{
    lemma_non_fence_ok(b);
    lemma_plain_over(b, non_fence(b), 0, 0, paths, 0);
    assert(b.subrange(0, b.len() as int) =~= b);
}

/// The image paths, as bytes.
pub open spec fn paths_view(paths: Seq<Option<String>>) -> Seq<Option<Seq<u8>>> {
    paths.map_values(|p: Option<String>| opt_bytes(p))
}

// ---------------------------------------------------------------------------
// Literal pieces
// ---------------------------------------------------------------------------
fn lit(which: u8) -> (r: &'static str)
    ensures
        which == 0 ==> r.spec_bytes() == open_brackets(),
        which == 1 ==> r.spec_bytes() == close_brackets(),
        which == 2 ==> r.spec_bytes() == seq![0x5Bu8],
        which == 3 ==> r.spec_bytes() == seq![0x5Du8, 0x28],
        which == 4 ==> r.spec_bytes() == seq![0x23u8],
        which == 5 ==> r.spec_bytes() == seq![0x29u8],
        which == 6 ==> r.spec_bytes() == seq![0x21u8, 0x5B],
        which == 7 ==> r.spec_bytes() == file_scheme(),
        which == 8 ==> r.spec_bytes() == default_alt(),
        which == 9 ==> r.spec_bytes() == seq![0x21u8],
{
    let s = if which == 0 {
        "[["
    } else if which == 1 {
        "]]"
    } else if which == 2 {
        "["
    } else if which == 3 {
        "]("
    } else if which == 4 {
        "#"
    } else if which == 5 {
        ")"
    } else if which == 6 {
        "!["
    } else if which == 7 {
        "file://"
    } else if which == 8 {
        "image"
    } else {
        "!"
    };
    proof {
        reveal_strlit("[[");
        reveal_strlit("]]");
        reveal_strlit("[");
        reveal_strlit("](");
        reveal_strlit("#");
        reveal_strlit(")");
        reveal_strlit("![");
        reveal_strlit("file://");
        reveal_strlit("image");
        reveal_strlit("!");
        crate::text::lemma_ascii_str(s);
        if which == 0 {
            assert(s.spec_bytes() =~= open_brackets());
        } else if which == 1 {
            assert(s.spec_bytes() =~= close_brackets());
        } else if which == 2 {
            assert(s.spec_bytes() =~= seq![0x5Bu8]);
        } else if which == 3 {
            assert(s.spec_bytes() =~= seq![0x5Du8, 0x28]);
        } else if which == 4 {
            assert(s.spec_bytes() =~= seq![0x23u8]);
        } else if which == 5 {
            assert(s.spec_bytes() =~= seq![0x29u8]);
        } else if which == 6 {
            assert(s.spec_bytes() =~= seq![0x21u8, 0x5B]);
        } else if which == 7 {
            assert(s.spec_bytes() =~= file_scheme());
        } else if which == 8 {
            assert(s.spec_bytes() =~= default_alt());
        } else if which == 9 {
            assert(s.spec_bytes() =~= seq![0x21u8]);
        }
    }
    s
}

// ---------------------------------------------------------------------------
// Rewriting
// ---------------------------------------------------------------------------
/// Appends the CommonMark link for the wiki link text `s[ia..iz]`.
fn append_wiki_link(s: &str, ia: usize, iz: usize, out: &mut String)
    requires
        ia <= iz <= s.spec_bytes().len(),
        is_char_boundary(s.spec_bytes(), ia as int),
        is_char_boundary(s.spec_bytes(), iz as int),
    ensures
        utf8_bytes(final(out)@) == utf8_bytes(old(out)@) + link_piece(s.spec_bytes(), ia as int, iz as int),
{
    let (target, anchor, alias) = parse_wiki_link_inner(s, ia, iz);
    if target.as_str().as_bytes().len() == 0 {
        push_str(out, lit(0));
        push_str(out, str_slice(s, ia, iz));
        push_str(out, lit(1));
        return;
    }
    proof {
        crate::editor::lemma_scheme();
    }
    push_str(out, lit(2));
    match &alias {
        Some(a) => push_str(out, a.as_str()),
        None => push_str(out, target.as_str()),
    }
    push_str(out, lit(3));
    push_str(out, NOTE_LINK_SCHEME);
    push_str(out, target.as_str());
    match &anchor {
        Some(h) => {
            push_str(out, lit(4));
            push_str(out, h.as_str());
        },
        None => {},
    }
    push_str(out, lit(5));
}

/// Appends the image for the embed text `s[ia..iz]` resolved to `path`, or
/// the embed as it was when there is no path.
fn append_image(s: &str, ia: usize, iz: usize, path: Option<&String>, out: &mut String)
    requires
        ia <= iz <= s.spec_bytes().len(),
        is_char_boundary(s.spec_bytes(), ia as int),
        is_char_boundary(s.spec_bytes(), iz as int),
    ensures
        utf8_bytes(final(out)@) == utf8_bytes(old(out)@) + image_piece(
            s.spec_bytes(),
            ia as int,
            iz as int,
            match path {
                Some(p) => Some(utf8_bytes(p@)),
                None => None,
            },
        ),
{
    match path {
        None => {
            push_str(out, lit(9));
            push_str(out, lit(0));
            push_str(out, str_slice(s, ia, iz));
            push_str(out, lit(1));
        },
        Some(p) => {
            let (_target, _anchor, alias) = parse_wiki_link_inner(s, ia, iz);
            push_str(out, lit(6));
            match &alias {
                Some(a) => push_str(out, a.as_str()),
                None => push_str(out, lit(8)),
            }
            push_str(out, lit(3));
            push_str(out, lit(7));
            push_str(out, p.as_str());
            push_str(out, lit(5));
        },
    }
}

/// Appends the text from `cur` up to the link at `start..end + 2`, then the
/// link rewritten; records the target of a named image.
fn emit_link(
    s: &str,
    lo: usize,
    cur: usize,
    start: usize,
    end: usize,
    paths: &[Option<String>],
    out: &mut String,
    targets: &mut Vec<String>,
)
    requires
        lo <= cur <= start,
        start + 2 <= end,
        end + 2 <= s.spec_bytes().len(),
        cur == lo || s.spec_bytes()[cur - 1] == 0x5D,
        s.spec_bytes().subrange(start as int, start + 2) == open_brackets(),
        s.spec_bytes().subrange(end as int, end + 2) == close_brackets(),
        is_char_boundary(s.spec_bytes(), lo as int),
        is_char_boundary(s.spec_bytes(), cur as int),
    ensures
        ({
            let st = link_step(s.spec_bytes(), lo as int, start as int, end as int, paths_view(paths@), old(targets)@.len() as int);
            &&& utf8_bytes(final(out)@) == utf8_bytes(old(out)@) + s.spec_bytes().subrange(cur as int, st.0) + st.1
            &&& strings_bytes(final(targets)@) == strings_bytes(old(targets)@) + st.2
        }),
{
    let b = s.as_bytes();
    let ghost pv = paths_view(paths@);
    let ts = start + 2;
    proof {
        reveal(link_step);
        lemma_str_valid(s);
        assert(b@.subrange(start as int, start + 2)[0] == b@[start as int]);
        assert(b@.subrange(start as int, start + 2)[1] == b@[start + 1]);
        assert(b@.subrange(end as int, end + 2)[0] == b@[end as int]);
        assert(b@.subrange(end as int, end + 2)[1] == b@[end + 1]);
        lemma_after_ascii(b@, start as int);
        lemma_after_ascii(b@, start + 1);
        lemma_after_ascii(b@, end as int);
        lemma_after_ascii(b@, end + 1);
        lemma_trim_boundaries(b@, ts as int, end as int);
    }
    let (ia, iz) = trim_range(b, ts, end);
    let img = start > lo && b[start - 1] == 0x21 && (start - 1 == lo || {
        let c = b[start - 2];
        c == 0x20 || c == 0x09 || c == 0x0A || c == 0x0D || c == 0x28 || c == 0x5B || c == 0x3E
    });
    let ce = if img {
        start - 1
    } else {
        start
    };
    proof {
        if img {
            lemma_after_ascii(b@, start - 1);
        }
    }
    push_str(out, str_slice(s, cur, ce));
    if ia == iz {
        push_str(out, str_slice(s, ce, end + 2));
    } else if img {
        let (target, _anchor, _alias) = parse_wiki_link_inner(s, ia, iz);
        match sanitize_asset_filename(target.as_str()) {
            Ok(_) => {
                let k = targets.len();
                let path: Option<&String> = if k < paths.len() {
                    match &paths[k] {
                        Some(p) => Some(p),
                        None => None,
                    }
                } else {
                    None
                };
                proof {
                    if k < paths@.len() {
                        assert(pv[k as int] == opt_bytes(paths@[k as int]));
                    }
                }
                append_image(s, ia, iz, path, out);
                let ghost before = targets@;
                targets.push(target);
                proof {
                    crate::path::lemma_strings_bytes_push(before, target);
                }
            },
            Err(_) => {
                append_image(s, ia, iz, None, out);
                assert(strings_bytes(targets@) =~= strings_bytes(old(targets)@) + Seq::<Seq<u8>>::empty());
            },
        }
    } else {
        append_wiki_link(s, ia, iz, out);
        assert(strings_bytes(targets@) =~= strings_bytes(old(targets)@) + Seq::<Seq<u8>>::empty());
    }
}

/// Rewrites the segment `s[lo..hi]`, appending to `out` and collecting the
/// targets of its named images in `targets`; `k` images were named before.
fn rewrite_segment(
    s: &str,
    lo: usize,
    hi: usize,
    paths: &[Option<String>],
    out: &mut String,
    targets: &mut Vec<String>,
)
    requires
        lo <= hi <= s.spec_bytes().len(),
        is_char_boundary(s.spec_bytes(), lo as int),
        is_char_boundary(s.spec_bytes(), hi as int),
    ensures
        ({
            let seg = preview_seg(s.spec_bytes(), lo as int, hi as int, lo as int, paths_view(paths@), old(targets)@.len() as int);
            &&& utf8_bytes(final(out)@) == utf8_bytes(old(out)@) + seg.0
            &&& strings_bytes(final(targets)@) == strings_bytes(old(targets)@) + seg.1
        }),
{
    let b = s.as_bytes();
    proof {
        lemma_str_valid(s);
    }
    let ghost pv = paths_view(paths@);
    let ghost o0 = utf8_bytes(out@);
    let ghost t0 = strings_bytes(targets@);
    let ghost k0 = targets@.len() as int;
    let ghost full = preview_seg(b@, lo as int, hi as int, lo as int, pv, k0);
    let open_pat: [u8; 2] = [0x5B, 0x5B];
    let close_pat: [u8; 2] = [0x5D, 0x5D];
    assert(open_pat@ =~= open_brackets());
    assert(close_pat@ =~= close_brackets());
    let mut cur = lo;
    loop
        invariant_except_break
            ({
                let rest = preview_seg(b@, lo as int, hi as int, cur as int, pv, targets@.len() as int);
                &&& full.0 == utf8_bytes(out@).skip(o0.len() as int) + rest.0
                &&& full.1 == strings_bytes(targets@).skip(k0) + rest.1
            }),
        invariant
            lo <= cur <= hi,
            cur == lo || b@[cur - 1] == 0x5D,
            hi <= b@.len(),
            b@ == s.spec_bytes(),
            valid_utf8(b@),
            is_char_boundary(b@, lo as int),
            is_char_boundary(b@, cur as int),
            is_char_boundary(b@, hi as int),
            open_pat@ == open_brackets(),
            close_pat@ == close_brackets(),
            pv == paths_view(paths@),
            full == preview_seg(b@, lo as int, hi as int, lo as int, pv, k0),
            t0.len() == k0,
            k0 <= targets@.len(),
            strings_bytes(targets@).take(k0) == t0,
            utf8_bytes(out@).take(o0.len() as int) == o0,
            o0.len() <= utf8_bytes(out@).len(),
        ensures
            full.0 == utf8_bytes(out@).skip(o0.len() as int),
            full.1 == strings_bytes(targets@).skip(k0),
            utf8_bytes(out@).take(o0.len() as int) == o0,
            strings_bytes(targets@).take(k0) == t0,
        decreases hi - cur,
    {
        let ghost ob = utf8_bytes(out@);
        let ghost tb = strings_bytes(targets@);
        let start = match crate::text::find_within_exec(b, cur, hi, open_pat.as_slice()) {
            None => {
                push_str(out, str_slice(s, cur, hi));
                proof {
                    assert(utf8_bytes(out@).skip(o0.len() as int) =~= ob.skip(o0.len() as int) + b@.subrange(cur as int, hi as int));
                    assert(utf8_bytes(out@).take(o0.len() as int) =~= ob.take(o0.len() as int));
                }
                break;
            },
            Some(k) => k,
        };
        proof {
            crate::text::lemma_find_within(b@, cur as int, hi as int, open_brackets());
        }
        let ts = start + 2;
        let end = match crate::text::find_within_exec(b, ts, hi, close_pat.as_slice()) {
            None => {
                push_str(out, str_slice(s, cur, hi));
                proof {
                    assert(utf8_bytes(out@).skip(o0.len() as int) =~= ob.skip(o0.len() as int) + b@.subrange(cur as int, hi as int));
                    assert(utf8_bytes(out@).take(o0.len() as int) =~= ob.take(o0.len() as int));
                }
                break;
            },
            Some(k) => k,
        };
        proof {
            crate::text::lemma_find_within(b@, ts as int, hi as int, close_brackets());
            assert(b@.subrange(end as int, end + 2)[1] == b@[end + 1]);
            lemma_after_ascii(b@, end + 1);
        }
        let ghost st = link_step(b@, lo as int, start as int, end as int, pv, tb.len() as int);
        let ghost rest = preview_seg(b@, lo as int, hi as int, end + 2, pv, (tb.len() + st.2.len()) as int);
        assert(preview_seg(b@, lo as int, hi as int, cur as int, pv, tb.len() as int) == (
            b@.subrange(cur as int, st.0) + st.1 + rest.0,
            st.2 + rest.1,
        ));
        emit_link(s, lo, cur, start, end, paths, out, targets);
        proof {
            assert(utf8_bytes(out@) =~= ob + (b@.subrange(cur as int, st.0) + st.1));
            assert(strings_bytes(targets@) =~= tb + st.2);
            assert(utf8_bytes(out@).skip(o0.len() as int) =~= ob.skip(o0.len() as int) + (b@.subrange(cur as int, st.0) + st.1));
            assert(strings_bytes(targets@).skip(k0) =~= tb.skip(k0) + st.2);
            assert(utf8_bytes(out@).take(o0.len() as int) =~= ob.take(o0.len() as int));
            assert(strings_bytes(targets@).take(k0) =~= tb.take(k0));
        }
        cur = end + 2;
    }
}

/// Rewrites wiki links and image embeds of `source` outside fenced code into
/// CommonMark links and images, and collects the targets of the named
/// images; the `k`-th named image takes `paths[k]` as its path.
fn rewrite_all(source: &str, paths: &[Option<String>]) -> (r: (String, Vec<String>))
    ensures
        utf8_bytes(r.0@) == preview(source.spec_bytes(), paths_view(paths@)).0,
        strings_bytes(r.1@) == preview(source.spec_bytes(), paths_view(paths@)).1,
{
    let b = source.as_bytes();
    proof {
        lemma_str_valid(source);
        lemma_non_fence_ok(b@);
    }
    let ranges = non_fence_ranges(source);
    let ghost rs = ranges_view(ranges@);
    let ghost pv = paths_view(paths@);
    let mut out = String::new();
    let mut targets: Vec<String> = Vec::new();
    let mut last: usize = 0;
    let mut j: usize = 0;
    assert(utf8_bytes(out@) =~= Seq::<u8>::empty());
    assert(strings_bytes(targets@) =~= Seq::<Seq<u8>>::empty());
    while j < ranges.len()
        invariant
            0 <= j <= ranges@.len(),
            rs == ranges_view(ranges@),
            rs == non_fence(b@),
            ranges_ok(b@, rs),
            b@ == source.spec_bytes(),
            valid_utf8(b@),
            pv == paths_view(paths@),
            last <= b@.len(),
            is_char_boundary(b@, last as int),
            j < ranges@.len() ==> last <= rs[j as int].0,
            preview(b@, pv).0 == utf8_bytes(out@) + preview_over(b@, rs, j as int, last as int, pv, targets@.len() as int).0,
            preview(b@, pv).1 == strings_bytes(targets@) + preview_over(b@, rs, j as int, last as int, pv, targets@.len() as int).1,
        decreases ranges@.len() - j,
    {
        let lo = ranges[j].start;
        let hi = ranges[j].end;
        assert(rs[j as int] == (lo as int, hi as int));
        let ghost ob = utf8_bytes(out@);
        let ghost tb = strings_bytes(targets@);
        let ghost k = targets@.len() as int;
        push_str(&mut out, str_slice(source, last, lo));
        rewrite_segment(source, lo, hi, paths, &mut out, &mut targets);
        proof {
            let seg = preview_seg(b@, lo as int, hi as int, lo as int, pv, k);
            assert(utf8_bytes(out@) =~= ob + b@.subrange(last as int, lo as int) + seg.0);
            assert(targets@.len() == k + seg.1.len()) by {
                assert(strings_bytes(targets@).len() == targets@.len());
            }
            if j + 1 < ranges@.len() {
                assert(rs[j as int].1 <= rs[j + 1].0);
            }
        }
        last = hi;
        j = j + 1;
    }
    push_str(&mut out, str_slice(source, last, b.len()));
    (out, targets)
}

/// Rewrites wiki links and image embeds of `source` outside fenced code into
/// CommonMark links and images. `image_paths[k]` is where the `k`-th image
/// embed that names a valid asset file (see [`image_embed_targets`]) is to be
/// found, or none when it must not be shown; such an embed, and any embed
/// without a path, stays as it is.
pub fn transform_wiki_links(source: &str, image_paths: &[Option<String>]) -> (r: String)
    ensures
        utf8_bytes(r@) == preview(source.spec_bytes(), paths_view(image_paths@)).0,
{
    rewrite_all(source, image_paths).0
}

/// The targets of the image embeds of `source`, outside fenced code, that
/// name a valid asset file, in order: the images whose paths
/// [`transform_wiki_links`] takes.
pub fn image_embed_targets(source: &str) -> (r: Vec<String>)
    ensures
        strings_bytes(r@) == preview(source.spec_bytes(), Seq::empty()).1,
{
    let none: Vec<Option<String>> = Vec::new();
    assert(paths_view(none@) =~= Seq::<Option<Seq<u8>>>::empty());
    rewrite_all(source, none.as_slice()).1
}

} // verus!
