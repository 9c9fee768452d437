//! Note analysis: fenced code regions, headings, wiki links, image embeds and
//! inline tags of a note body.
use vstd::prelude::*;
use vstd::utf8::*;
use vstd::string::*;
use std::ops::Range;
use crate::note::{Tag, MarkdownNote, ValueView, is_tag_byte, is_valid_tag_name, tag_names, valid_tags};
use crate::path::bytes_order;
use crate::path::lemma_bytes_order;
use crate::text::{
    utf8_bytes, find_byte, line_end, trim_lo, trim_hi, run_len, content_end, lemma_line_end,
    lemma_run_len, lemma_content_end, lemma_str_valid, lemma_after_ascii, lemma_trim_boundaries,
    lemma_line_end_boundary, line_end_exec, run_len_exec, content_end_exec, trim_range,
};

verus! {

broadcast use vstd::seq::group_seq_axioms;

// ---------------------------------------------------------------------------
// Fenced code blocks
// ---------------------------------------------------------------------------
pub open spec fn is_fence_byte(c: u8) -> bool {
    c == 0x60 || c == 0x7E
}

/// The opening fence of the line `b[lo..hi]`: its fence byte and run length.
/// Up to three leading spaces, then at least three backticks or tildes.
pub open spec fn opening_fence(b: Seq<u8>, lo: int, hi: int) -> Option<(u8, int)> {
    let ce = content_end(b, lo, hi);
    let ind = run_len(b, lo, ce, 0x20);
    if ind <= 3 && lo + ind < ce && is_fence_byte(b[lo + ind]) && run_len(
        b,
        lo + ind,
        ce,
        b[lo + ind],
    ) >= 3 {
        Some((b[lo + ind], run_len(b, lo + ind, ce, b[lo + ind])))
    } else {
        None
    }
}

/// Whether the line `b[lo..hi]` closes a fence of byte `fc` and length `run`:
/// up to three leading spaces, at least `run` fence bytes, then only whitespace.
pub open spec fn is_closing_fence(b: Seq<u8>, lo: int, hi: int, fc: u8, run: int) -> bool {
    let ce = content_end(b, lo, hi);
    let ind = run_len(b, lo, ce, 0x20);
    let cl = run_len(b, lo + ind, ce, fc);
    &&& ind <= 3
    &&& cl >= run
    &&& trim_lo(b, lo + ind + cl, ce) == trim_hi(b, lo + ind + cl, ce)
}

/// End of the first line at or after the line start `p` that closes the
/// fence, or `-1` when the fence stays open.
pub open spec fn closing_fence_end(b: Seq<u8>, p: int, fc: u8, run: int) -> int
    decreases b.len() - p,
{
    if p < 0 || p >= b.len() {
        -1
    } else if is_closing_fence(b, p, line_end(b, p), fc, run) {
        line_end(b, p)
    } else {
        proof {
            lemma_line_end(b, p);
        }
        closing_fence_end(b, line_end(b, p), fc, run)
    }
}

/// The ranges outside fenced code blocks, scanning lines from `pos` with the
/// current range starting at `seg`.
pub open spec fn nf_ranges(b: Seq<u8>, pos: int, seg: int) -> Seq<(int, int)>
    decreases b.len() - pos,
{
    if pos < 0 || pos >= b.len() {
        if seg < b.len() {
            seq![(seg, b.len() as int)]
        } else {
            Seq::empty()
        }
    } else {
        let le = line_end(b, pos);
        proof {
            lemma_line_end(b, pos);
        }
        match opening_fence(b, pos, le) {
            Some(f) => {
                let pre = if seg < pos {
                    seq![(seg, pos)]
                } else {
                    Seq::empty()
                };
                let ce = closing_fence_end(b, le, f.0, f.1);
                if ce == -1 {
                    pre
                } else {
                    proof {
                        lemma_closing_fence_end(b, le, f.0, f.1);
                    }
                    pre + nf_ranges(b, ce, ce)
                }
            },
            None => nf_ranges(b, le, seg),
        }
    }
}

/// The byte ranges of `b` outside fenced code blocks.
pub open spec fn non_fence(b: Seq<u8>) -> Seq<(int, int)> {
    nf_ranges(b, 0, 0)
}

pub proof fn lemma_closing_fence_end(b: Seq<u8>, p: int, fc: u8, run: int)
    requires
        0 <= p,
    ensures
        closing_fence_end(b, p, fc, run) == -1 || (p < closing_fence_end(b, p, fc, run) <= b.len()),
    decreases b.len() - p,
{
    if 0 <= p < b.len() {
        lemma_line_end(b, p);
        if !is_closing_fence(b, p, line_end(b, p), fc, run) {
            lemma_closing_fence_end(b, line_end(b, p), fc, run);
        }
    }
}

/// The ranges view of a list of ranges.
pub open spec fn ranges_view(v: Seq<Range<usize>>) -> Seq<(int, int)> {
    v.map_values(|r: Range<usize>| (r.start as int, r.end as int))
}

fn opening_fence_exec(b: &[u8], lo: usize, hi: usize) -> (r: Option<(u8, usize)>)
    requires
        lo <= hi <= b@.len(),
    ensures
        match r {
            None => opening_fence(b@, lo as int, hi as int) is None,
            Some(f) => opening_fence(b@, lo as int, hi as int) == Some((f.0, f.1 as int)),
        },
{
    let ce = content_end_exec(b, lo, hi);
    let ind = run_len_exec(b, lo, ce, 0x20);
    if ind <= 3 && lo + ind < ce && (b[lo + ind] == 0x60 || b[lo + ind] == 0x7E) {
        let fc = b[lo + ind];
        let run = run_len_exec(b, lo + ind, ce, fc);
        if run >= 3 {
            return Some((fc, run));
        }
    }
    None
}

fn is_closing_fence_exec(b: &[u8], lo: usize, hi: usize, fc: u8, run: usize) -> (r: bool)
    requires
        lo <= hi <= b@.len(),
    ensures
        r == is_closing_fence(b@, lo as int, hi as int, fc, run as int),
{
    let ce = content_end_exec(b, lo, hi);
    let ind = run_len_exec(b, lo, ce, 0x20);
    let cl = run_len_exec(b, lo + ind, ce, fc);
    let (ta, tz) = trim_range(b, lo + ind + cl, ce);
    ind <= 3 && cl >= run && ta == tz
}

/// Returns the byte ranges of `body` that are not inside a fenced code block.
///
/// A fence opens with at least three backticks or tildes indented by at most
/// three spaces, and closes with a line of at least as many of the same byte,
/// indented by at most three spaces and followed only by whitespace. An
/// unclosed fence runs to the end of the body.
pub fn non_fence_ranges(body: &str) -> (r: Vec<Range<usize>>)
    ensures
        ranges_view(r@) == non_fence(body.spec_bytes()),
{
    let b = body.as_bytes();
    let len = b.len();
    let mut ranges: Vec<Range<usize>> = Vec::new();
    let mut seg: usize = 0;
    let mut pos: usize = 0;
    while pos < len
        invariant
            len == b@.len(),
            seg <= pos <= len,
            non_fence(b@) == ranges_view(ranges@) + nf_ranges(b@, pos as int, seg as int),
        decreases len - pos,
    {
        let le = line_end_exec(b, pos);
        match opening_fence_exec(b, pos, le) {
            Some((fc, run)) => {
                let ghost before = ranges@;
                if seg < pos {
                    ranges.push(seg..pos);
                }
                assert(ranges_view(ranges@) =~= ranges_view(before) + (if seg < pos {
                    seq![(seg as int, pos as int)]
                } else {
                    Seq::empty()
                }));
                let mut inner = le;
                let mut closed: Option<usize> = None;
                while inner < len
                    invariant_except_break
                        closed is None,
                    invariant
                        pos < le <= inner <= len,
                        len == b@.len(),
                        closing_fence_end(b@, le as int, fc, run as int) == closing_fence_end(
                            b@,
                            inner as int,
                            fc,
                            run as int,
                        ),
                    ensures
                        match closed {
                            Some(ce) => closing_fence_end(b@, le as int, fc, run as int) == ce as int,
                            None => closing_fence_end(b@, le as int, fc, run as int) == -1,
                        },
                    decreases len - inner,
                {
                    let cl_end = line_end_exec(b, inner);
                    if is_closing_fence_exec(b, inner, cl_end, fc, run) {
                        closed = Some(cl_end);
                        break;
                    }
                    inner = cl_end;
                }
                match closed {
                    Some(ce) => {
                        proof {
                            lemma_closing_fence_end(b@, le as int, fc, run as int);
                        }
                        pos = ce;
                        seg = ce;
                    },
                    None => {
                        assert(nf_ranges(b@, len as int, len as int) =~= Seq::<(int, int)>::empty());
                        pos = len;
                        seg = len;
                    },
                }
            },
            None => {
                pos = le;
            },
        }
    }
    if seg < len {
        let ghost before = ranges@;
        ranges.push(seg..len);
        assert(ranges_view(ranges@) =~= ranges_view(before) + seq![(seg as int, len as int)]);
    } else {
        assert(ranges_view(ranges@) + nf_ranges(b@, pos as int, seg as int) =~= ranges_view(ranges@));
    }
    ranges
}


/// Every range lies inside `b`, is non-empty, starts and ends at character
/// boundaries, and comes after the ones before it.
pub open spec fn ranges_ok(b: Seq<u8>, rs: Seq<(int, int)>) -> bool {
    &&& forall|i: int|
        0 <= i < rs.len() ==> 0 <= (#[trigger] rs[i]).0 < rs[i].1 <= b.len() && is_char_boundary(
            b,
            rs[i].0,
        ) && is_char_boundary(b, rs[i].1)
    &&& forall|i: int, j: int| 0 <= i < j < rs.len() ==> (#[trigger] rs[i]).1 <= (#[trigger] rs[j]).0
}

proof fn lemma_nf_ranges_ok(b: Seq<u8>, pos: int, seg: int)
    requires
        valid_utf8(b),
        0 <= seg <= pos <= b.len(),
        is_char_boundary(b, pos),
        is_char_boundary(b, seg),
    ensures
        ranges_ok(b, nf_ranges(b, pos, seg)),
        forall|i: int| 0 <= i < nf_ranges(b, pos, seg).len() ==> seg <= (#[trigger] nf_ranges(b, pos, seg)[i]).0,
    decreases b.len() - pos,
{
    lemma_str_end_boundary(b);
    if pos < b.len() {
        let le = line_end(b, pos);
        lemma_line_end(b, pos);
        lemma_line_end_boundary(b, pos);
        match opening_fence(b, pos, le) {
            Some(f) => {
                let ce = closing_fence_end(b, le, f.0, f.1);
                if ce != -1 {
                    lemma_closing_fence_end(b, le, f.0, f.1);
                    lemma_closing_fence_end_boundary(b, le, f.0, f.1);
                    lemma_nf_ranges_ok(b, ce, ce);
                    let pre = if seg < pos {
                        seq![(seg, pos)]
                    } else {
                        Seq::empty()
                    };
                    let rest = nf_ranges(b, ce, ce);
                    let all = pre + rest;
                    assert(nf_ranges(b, pos, seg) == all);
                    assert forall|i: int, j: int| 0 <= i < j < all.len() implies (#[trigger] all[i]).1
                        <= (#[trigger] all[j]).0 by {
                        if i >= pre.len() {
                            assert(all[i] == rest[i - pre.len()]);
                            assert(all[j] == rest[j - pre.len()]);
                        } else {
                            assert(all[j] == rest[j - pre.len()]);
                        }
                    }
                    assert forall|i: int| 0 <= i < all.len() implies 0 <= (#[trigger] all[i]).0
                        < all[i].1 <= b.len() && is_char_boundary(b, all[i].0) && is_char_boundary(
                        b,
                        all[i].1,
                    ) && seg <= all[i].0 by {
                        if i >= pre.len() {
                            assert(all[i] == rest[i - pre.len()]);
                        }
                    }
                }
            },
            None => {
                lemma_nf_ranges_ok(b, le, seg);
            },
        }
    }
}

proof fn lemma_str_end_boundary(b: Seq<u8>)
    requires
        valid_utf8(b),
    ensures
        is_char_boundary(b, b.len() as int),
        is_char_boundary(b, 0),
{
    is_char_boundary_start_end_of_seq(b);
}

proof fn lemma_closing_fence_end_boundary(b: Seq<u8>, p: int, fc: u8, run: int)
    requires
        valid_utf8(b),
        0 <= p,
        closing_fence_end(b, p, fc, run) != -1,
    ensures
        is_char_boundary(b, closing_fence_end(b, p, fc, run)),
    decreases b.len() - p,
{
    if 0 <= p < b.len() {
        lemma_line_end(b, p);
        lemma_line_end_boundary(b, p);
        if !is_closing_fence(b, p, line_end(b, p), fc, run) {
            lemma_closing_fence_end_boundary(b, line_end(b, p), fc, run);
        }
    }
}

/// The fence-free ranges of a body are well formed.
pub proof fn lemma_non_fence_ok(b: Seq<u8>)
    requires
        valid_utf8(b),
    ensures
        ranges_ok(b, non_fence(b)),
{
    lemma_str_end_boundary(b);
    lemma_nf_ranges_ok(b, 0, 0);
}

/// Whether `p` starts a line of `b`: it is the start, or follows a newline.
pub open spec fn starts_line(b: Seq<u8>, p: int) -> bool {
    p == 0 || (0 < p <= b.len() && b[p - 1] == 10)
}

proof fn lemma_closing_fence_end_line(b: Seq<u8>, p: int, fc: u8, run: int)
    requires
        0 <= p,
        closing_fence_end(b, p, fc, run) != -1,
    ensures
        closing_fence_end(b, p, fc, run) < b.len() ==> b[closing_fence_end(b, p, fc, run) - 1] == 10,
    decreases b.len() - p,
{
    if 0 <= p < b.len() {
        lemma_line_end(b, p);
        if !is_closing_fence(b, p, line_end(b, p), fc, run) {
            lemma_closing_fence_end_line(b, line_end(b, p), fc, run);
        }
    }
}

proof fn lemma_nf_ranges_lines(b: Seq<u8>, pos: int, seg: int)
    requires
        0 <= seg <= pos <= b.len(),
        seg < b.len() ==> starts_line(b, seg),
    ensures
        forall|i: int| 0 <= i < nf_ranges(b, pos, seg).len() ==> seg <= (#[trigger] nf_ranges(b, pos, seg)[i]).0
            && starts_line(b, nf_ranges(b, pos, seg)[i].0),
        forall|i: int, j: int|
            0 <= i < j < nf_ranges(b, pos, seg).len() ==> (#[trigger] nf_ranges(b, pos, seg)[i]).1
                < (#[trigger] nf_ranges(b, pos, seg)[j]).0,
    decreases b.len() - pos,
{
    if pos < b.len() {
        let le = line_end(b, pos);
        lemma_line_end(b, pos);
        match opening_fence(b, pos, le) {
            Some(f) => {
                let ce = closing_fence_end(b, le, f.0, f.1);
                if ce == -1 {
                    let pre = if seg < pos {
                        seq![(seg, pos)]
                    } else {
                        Seq::<(int, int)>::empty()
                    };
                    assert(nf_ranges(b, pos, seg) == pre);
                } else {
                    lemma_closing_fence_end(b, le, f.0, f.1);
                    lemma_closing_fence_end_line(b, le, f.0, f.1);
                    lemma_nf_ranges_lines(b, ce, ce);
                    let pre = if seg < pos {
                        seq![(seg, pos)]
                    } else {
                        Seq::empty()
                    };
                    let rest = nf_ranges(b, ce, ce);
                    let all = pre + rest;
                    assert(nf_ranges(b, pos, seg) == all);
                    assert forall|i: int, j: int| 0 <= i < j < all.len() implies (#[trigger] all[i]).1
                        < (#[trigger] all[j]).0 by {
                        if i >= pre.len() {
                            assert(all[i] == rest[i - pre.len()]);
                            assert(all[j] == rest[j - pre.len()]);
                        } else {
                            assert(all[j] == rest[j - pre.len()]);
                        }
                    }
                    assert forall|i: int| 0 <= i < all.len() implies seg <= (#[trigger] all[i]).0 && starts_line(
                        b,
                        all[i].0,
                    ) by {
                        if i >= pre.len() {
                            assert(all[i] == rest[i - pre.len()]);
                        }
                    }
                }
            },
            None => {
                lemma_nf_ranges_lines(b, le, seg);
                assert(nf_ranges(b, pos, seg) == nf_ranges(b, le, seg));
            },
        }
    } else {
        if seg < b.len() {
            assert(nf_ranges(b, pos, seg) == seq![(seg, b.len() as int)]);
            assert(starts_line(b, seg));
        } else {
            assert(nf_ranges(b, pos, seg).len() == 0);
        }
    }
}

/// Each range outside fenced code starts a line, and two ranges are never
/// adjacent: a fence line always lies between them.
pub proof fn lemma_non_fence_lines(b: Seq<u8>)
    ensures
        forall|i: int| 0 <= i < non_fence(b).len() ==> starts_line(b, (#[trigger] non_fence(b)[i]).0),
        forall|i: int, j: int|
            0 <= i < j < non_fence(b).len() ==> (#[trigger] non_fence(b)[i]).1 < (#[trigger] non_fence(b)[j]).0,
{
    lemma_nf_ranges_lines(b, 0, 0);
}

/// Whether no line of `b` from the line start `pos` on opens a fence: none
/// starts, after at most three spaces, with three or more backticks or tildes.
pub open spec fn fence_free_from(b: Seq<u8>, pos: int) -> bool
    decreases b.len() - pos,
{
    if pos < 0 || pos >= b.len() {
        true
    } else {
        proof {
            lemma_line_end(b, pos);
        }
        opening_fence(b, pos, line_end(b, pos)) is None && fence_free_from(b, line_end(b, pos))
    }
}

proof fn lemma_nf_ranges_fence_free(b: Seq<u8>, pos: int, seg: int)
    requires
        0 <= seg <= pos,
        fence_free_from(b, pos),
    ensures
        nf_ranges(b, pos, seg) == if seg < b.len() {
            seq![(seg, b.len() as int)]
        } else {
            Seq::<(int, int)>::empty()
        },
    decreases b.len() - pos,
{
    if pos < b.len() {
        lemma_line_end(b, pos);
        lemma_nf_ranges_fence_free(b, line_end(b, pos), seg);
    }
}

/// A body where no line opens a fence is one range outside fenced code,
/// covering all of it, or no range when it is empty.
pub proof fn lemma_fence_free_body_is_one_range(b: Seq<u8>)
    requires
        fence_free_from(b, 0),
    ensures
        non_fence(b) == if b.len() > 0 {
            seq![(0int, b.len() as int)]
        } else {
            Seq::<(int, int)>::empty()
        },
{
    lemma_nf_ranges_fence_free(b, 0, 0);
}

// ---------------------------------------------------------------------------
// Headings
// ---------------------------------------------------------------------------
/// End of the piece of `b[lo..hi]` before its first `\n`.
pub open spec fn piece_end(b: Seq<u8>, lo: int, hi: int) -> int {
    let k = find_byte(b, lo, hi, 10);
    if k == -1 {
        hi
    } else {
        k
    }
}

/// The heading written on the line `b[lo..hi]`: one to six `#`, a space, and
/// non-empty trimmed text.
pub open spec fn heading_of(b: Seq<u8>, lo: int, hi: int) -> Option<(int, Seq<u8>)> {
    let level = run_len(b, lo, hi, 0x23);
    if 1 <= level <= 6 && lo + level < hi && b[lo + level] == 0x20 {
        let ta = trim_lo(b, lo + level + 1, hi);
        let tz = trim_hi(b, lo + level + 1, hi);
        if ta == tz {
            None
        } else {
            Some((level, b.subrange(ta, tz)))
        }
    } else {
        None
    }
}

/// A heading of level `n` is written as exactly `n` `#` (one to six) and a
/// space: a line whose `#` run is not followed by a space, such as an
/// inline tag, is no heading. Its text is the rest of the line, trimmed and
/// non-empty.
pub proof fn lemma_heading_needs_space(b: Seq<u8>, lo: int, hi: int)
    requires
        0 <= lo <= hi <= b.len(),
    ensures
        heading_of(b, lo, hi) matches Some((n, t)) ==> {
            &&& 1 <= n <= 6
            &&& lo + n < hi
            &&& forall|j: int| lo <= j < lo + n ==> b[j] == 0x23
            &&& b[lo + n] == 0x20
            &&& t.len() > 0
            &&& exists|a: int, z: int| lo + n + 1 <= a < z <= hi && t == b.subrange(a, z)
        },
{
    lemma_run_len(b, lo, hi, 0x23);
    let level = run_len(b, lo, hi, 0x23);
    if 1 <= level <= 6 && lo + level < hi && b[lo + level] == 0x20 {
        let a = trim_lo(b, lo + level + 1, hi);
        lemma_skip_ws_within(b, lo + level + 1, hi);
        lemma_rskip_ws_within(b, a, hi);
        let z = trim_hi(b, lo + level + 1, hi);
        if a != z {
            assert(lo + level + 1 <= a < z <= hi && b.subrange(a, z) == b.subrange(a, z));
        }
    }
}

proof fn lemma_skip_ws_within(b: Seq<u8>, i: int, hi: int)
    requires
        i <= hi,
    ensures
        i <= crate::text::skip_ws(b, i, hi) <= hi,
    decreases hi - i,
{
    if i < hi && crate::text::ws_len_at(b, i) > 0 && i + crate::text::ws_len_at(b, i) <= hi {
        lemma_skip_ws_within(b, i + crate::text::ws_len_at(b, i), hi);
    }
}

proof fn lemma_rskip_ws_within(b: Seq<u8>, lo: int, j: int)
    requires
        lo <= j,
    ensures
        lo <= crate::text::rskip_ws(b, lo, j) <= j,
    decreases j - lo,
{
    if j > lo && crate::text::ws_len_before(b, j) > 0 && j - crate::text::ws_len_before(b, j) >= lo {
        lemma_rskip_ws_within(b, lo, j - crate::text::ws_len_before(b, j));
    }
}

/// The headings of the lines of `b[lo..hi]`, in order.
pub open spec fn headings_in(b: Seq<u8>, lo: int, hi: int) -> Seq<(int, Seq<u8>)>
    decreases hi - lo,
{
    if lo < 0 || lo >= hi || hi > b.len() {
        Seq::empty()
    } else {
        let e = piece_end(b, lo, hi);
        proof {
            crate::text::lemma_find_byte_props(b, lo, hi, 10);
        }
        let rest = if e < hi {
            headings_in(b, e + 1, hi)
        } else {
            Seq::empty()
        };
        match heading_of(b, lo, e) {
            Some(h) => seq![h] + rest,
            None => rest,
        }
    }
}

/// The headings of a list of ranges, in order.
pub open spec fn headings_over(b: Seq<u8>, rs: Seq<(int, int)>) -> Seq<(int, Seq<u8>)>
    decreases rs.len(),
{
    if rs.len() == 0 {
        Seq::empty()
    } else {
        headings_over(b, rs.drop_last()) + headings_in(b, rs.last().0, rs.last().1)
    }
}

/// The headings of a body, outside fenced code.
pub open spec fn headings_of(b: Seq<u8>) -> Seq<(int, Seq<u8>)> {
    headings_over(b, non_fence(b))
}

/// Markdown heading extracted from a note body.
#[derive(Debug, Clone, PartialEq, Eq)]
pub struct Heading {
    level: u8,
    text: String,
}

impl View for Heading {
    type V = (int, Seq<u8>);

    closed spec fn view(&self) -> (int, Seq<u8>) {
        (self.level as int, utf8_bytes(self.text@))
    }
}

impl Heading {
    /// Returns the Markdown heading level from 1 through 6.
    pub fn level(&self) -> (r: u8)
        ensures
            r as int == self@.0,
    {
        self.level
    }

    /// Returns the heading text without leading hash markers.
    pub fn text(&self) -> (r: &str)
        ensures
            r.spec_bytes() == self@.1,
    {
        self.text.as_str()
    }
}

/// The models of a list of headings.
pub open spec fn headings_view(v: Seq<Heading>) -> Seq<(int, Seq<u8>)> {
    v.map_values(|h: Heading| h@)
}

fn parse_heading(s: &str, lo: usize, hi: usize) -> (r: Option<Heading>)
    requires
        lo <= hi <= s.spec_bytes().len(),
        is_char_boundary(s.spec_bytes(), hi as int),
    ensures
        match r {
            None => heading_of(s.spec_bytes(), lo as int, hi as int) is None,
            Some(h) => heading_of(s.spec_bytes(), lo as int, hi as int) == Some(h@),
        },
{
    let b = s.as_bytes();
    let level = run_len_exec(b, lo, hi, 0x23);
    if 1 <= level && level <= 6 && lo + level < hi && b[lo + level] == 0x20 {
        proof {
            lemma_str_valid(s);
            lemma_after_ascii(b@, lo + level);
            lemma_trim_boundaries(b@, lo + level + 1, hi as int);
        }
        let (ta, tz) = trim_range(b, lo + level + 1, hi);
        if ta == tz {
            return None;
        }
        let text = crate::text::owned_slice(s, ta, tz);
        return Some(Heading { level: level as u8, text });
    }
    None
}

fn headings_in_range(s: &str, lo: usize, hi: usize, out: &mut Vec<Heading>)
    requires
        lo <= hi <= s.spec_bytes().len(),
        is_char_boundary(s.spec_bytes(), hi as int),
    ensures
        headings_view(final(out)@) == headings_view(old(out)@) + headings_in(
            s.spec_bytes(),
            lo as int,
            hi as int,
        ),
{
    let b = s.as_bytes();
    let mut pos = lo;
    let ghost start = headings_view(out@);
    assert(headings_in(b@, lo as int, hi as int) == headings_in(b@, pos as int, hi as int));
    while pos < hi
        invariant
            lo <= pos <= hi <= b@.len(),
            b@ == s.spec_bytes(),
            is_char_boundary(b@, hi as int),
            start == headings_view(old(out)@),
            start + headings_in(b@, lo as int, hi as int) == headings_view(out@) + headings_in(
                b@,
                pos as int,
                hi as int,
            ),
        decreases hi - pos,
    {
        let k = crate::text::find_byte_exec(b, pos, hi, 10);
        proof {
            crate::text::lemma_find_byte_props(b@, pos as int, hi as int, 10);
        }
        let e = match k {
            Some(k) => k,
            None => hi,
        };
        proof {
            if e < hi {
                lemma_str_valid(s);
                lemma_after_ascii(b@, e as int);
            }
        }
        let ghost before = headings_view(out@);
        match parse_heading(s, pos, e) {
            Some(h) => {
                let ghost hv = h@;
                let ghost old_out = out@;
                out.push(h);
                assert(headings_view(out@) =~= headings_view(old_out).push(hv));
            },
            None => {},
        }
        let ghost rest = if e < hi {
            headings_in(b@, e + 1, hi as int)
        } else {
            Seq::empty()
        };
        assert(headings_view(out@) + rest =~= before + headings_in(b@, pos as int, hi as int));
        if e < hi {
            pos = e + 1;
        } else {
            assert(headings_view(out@) + headings_in(b@, hi as int, hi as int) =~= headings_view(out@) + rest);
            pos = hi;
        }
    }
    assert(headings_view(out@) + headings_in(b@, pos as int, hi as int) =~= headings_view(out@));
}


// ---------------------------------------------------------------------------
// Wiki links and image embeds
// ---------------------------------------------------------------------------
pub open spec fn open_brackets() -> Seq<u8> {
    seq![0x5Bu8, 0x5B]
}

pub open spec fn close_brackets() -> Seq<u8> {
    seq![0x5Du8, 0x5D]
}

/// The bytes allowed right before the `!` of an image embed.
pub open spec fn is_embed_delim(c: u8) -> bool {
    c == 0x20 || c == 0x09 || c == 0x0A || c == 0x0D || c == 0x28 || c == 0x5B || c == 0x3E
}

/// Whether the `!` at `bang` starts an image embed: it opens the body or
/// follows whitespace, `(`, `[` or `>`.
pub open spec fn embed_prefix_ok(b: Seq<u8>, bang: int) -> bool {
    bang == 0 || is_embed_delim(b[bang - 1])
}

/// The trimmed part of `b[a..z]`, or none when it is empty.
pub open spec fn trimmed_opt(b: Seq<u8>, a: int, z: int) -> Option<Seq<u8>> {
    if trim_lo(b, a, z) == trim_hi(b, a, z) {
        None
    } else {
        Some(b.subrange(trim_lo(b, a, z), trim_hi(b, a, z)))
    }
}

/// The trimmed part of `b[a..z]`.
pub open spec fn trimmed_in(b: Seq<u8>, a: int, z: int) -> Seq<u8> {
    b.subrange(trim_lo(b, a, z), trim_hi(b, a, z))
}

/// Position of the last `|` in `b[a..z]`, or `-1`.
pub open spec fn last_pipe(b: Seq<u8>, a: int, z: int) -> int {
    let k = crate::text::rfind_before(b, z, seq![0x7Cu8]);
    if k >= a {
        k
    } else {
        -1
    }
}

/// Target, anchor and alias of the link text `b[a..z]`: the alias follows the
/// last `|`, the anchor the first `#` before it.
pub open spec fn link_of(b: Seq<u8>, a: int, z: int) -> (Seq<u8>, Option<Seq<u8>>, Option<Seq<u8>>) {
    let pipe = last_pipe(b, a, z);
    let pe = if pipe == -1 {
        z
    } else {
        pipe
    };
    let alias = if pipe == -1 {
        None
    } else {
        trimmed_opt(b, pipe + 1, z)
    };
    let hash = find_byte(b, a, pe, 0x23);
    if hash == -1 {
        (trimmed_in(b, a, pe), None, alias)
    } else {
        (trimmed_in(b, a, hash), trimmed_opt(b, hash + 1, pe), alias)
    }
}

/// Links and embeds of the segment `b[lo..hi]`, scanning from `cur`.
pub open spec fn wiki_scan(b: Seq<u8>, lo: int, hi: int, cur: int) -> (
    Seq<(Seq<u8>, Option<Seq<u8>>, Option<Seq<u8>>)>,
    Seq<Seq<u8>>,
)
    decreases hi - cur,
{
    let start = crate::text::find_within(b, cur, hi, open_brackets());
    if cur < lo || hi > b.len() || start == -1 {
        (Seq::empty(), Seq::empty())
    } else {
        let ts = start + 2;
        let end = crate::text::find_within(b, ts, hi, close_brackets());
        if end == -1 {
            (Seq::empty(), Seq::empty())
        } else {
            proof {
                crate::text::lemma_find_within(b, cur, hi, open_brackets());
                crate::text::lemma_find_within(b, ts, hi, close_brackets());
            }
            let rest = wiki_scan(b, lo, hi, end + 2);
            let ia = trim_lo(b, ts, end);
            let iz = trim_hi(b, ts, end);
            if ia == iz {
                rest
            } else if start > 0 && b[start - 1] == 0x21 && embed_prefix_ok(b, start - 1) {
                (rest.0, seq![b.subrange(ia, iz)] + rest.1)
            } else if link_of(b, ia, iz).0.len() == 0 {
                rest
            } else {
                (seq![link_of(b, ia, iz)] + rest.0, rest.1)
            }
        }
    }
}

/// Links and embeds of a list of ranges, in order.
pub open spec fn wiki_over(b: Seq<u8>, rs: Seq<(int, int)>) -> (
    Seq<(Seq<u8>, Option<Seq<u8>>, Option<Seq<u8>>)>,
    Seq<Seq<u8>>,
)
    decreases rs.len(),
{
    if rs.len() == 0 {
        (Seq::empty(), Seq::empty())
    } else {
        let front = wiki_over(b, rs.drop_last());
        let last = wiki_scan(b, rs.last().0, rs.last().1, rs.last().0);
        (front.0 + last.0, front.1 + last.1)
    }
}

/// The wiki links of a body outside fenced code, in order.
pub open spec fn wiki_links_of(b: Seq<u8>) -> Seq<(Seq<u8>, Option<Seq<u8>>, Option<Seq<u8>>)> {
    wiki_over(b, non_fence(b)).0
}

/// The image embed targets of a body outside fenced code, in order.
pub open spec fn image_embeds_of(b: Seq<u8>) -> Seq<Seq<u8>> {
    wiki_over(b, non_fence(b)).1
}

/// Internal note link of the form `[[Target]]`, optionally with an anchor
/// (`[[Target#anchor]]`) and/or an alias (`[[Target|alias]]`).
#[derive(Debug, Clone, PartialEq, Eq)]
pub struct WikiLink {
    target: String,
    anchor: Option<String>,
    alias: Option<String>,
}

pub open spec fn opt_bytes(o: Option<String>) -> Option<Seq<u8>> {
    match o {
        None => None,
        Some(s) => Some(utf8_bytes(s@)),
    }
}

impl View for WikiLink {
    type V = (Seq<u8>, Option<Seq<u8>>, Option<Seq<u8>>);

    closed spec fn view(&self) -> (Seq<u8>, Option<Seq<u8>>, Option<Seq<u8>>) {
        (utf8_bytes(self.target@), opt_bytes(self.anchor), opt_bytes(self.alias))
    }
}

impl WikiLink {
    /// Returns the link target (the part before `#` and `|`).
    pub fn target(&self) -> (r: &str)
        ensures
            r.spec_bytes() == self@.0,
    {
        self.target.as_str()
    }

    /// Returns the anchor fragment, if present.
    pub fn anchor(&self) -> (r: Option<&str>)
        ensures
            match r {
                None => self@.1 is None,
                Some(a) => self@.1 == Some(a.spec_bytes()),
            },
    {
        match &self.anchor {
            None => None,
            Some(a) => Some(a.as_str()),
        }
    }

    /// Returns the display alias, if present.
    pub fn alias(&self) -> (r: Option<&str>)
        ensures
            match r {
                None => self@.2 is None,
                Some(a) => self@.2 == Some(a.spec_bytes()),
            },
    {
        match &self.alias {
            None => None,
            Some(a) => Some(a.as_str()),
        }
    }
}

/// Wiki-style image embed of the form `![[image.png]]`.
#[derive(Debug, Clone, PartialEq, Eq)]
pub struct ImageEmbed {
    target: String,
}

impl View for ImageEmbed {
    type V = Seq<u8>;

    closed spec fn view(&self) -> Seq<u8> {
        utf8_bytes(self.target@)
    }
}

impl ImageEmbed {
    /// Returns the image target inside the wiki-link brackets.
    pub fn target(&self) -> (r: &str)
        ensures
            r.spec_bytes() == self@,
    {
        self.target.as_str()
    }
}

pub open spec fn links_view(v: Seq<WikiLink>) -> Seq<(Seq<u8>, Option<Seq<u8>>, Option<Seq<u8>>)> {
    v.map_values(|l: WikiLink| l@)
}

pub open spec fn embeds_view(v: Seq<ImageEmbed>) -> Seq<Seq<u8>> {
    v.map_values(|e: ImageEmbed| e@)
}

fn trimmed_opt_exec(s: &str, a: usize, z: usize) -> (r: Option<String>)
    requires
        a <= z <= s.spec_bytes().len(),
        is_char_boundary(s.spec_bytes(), a as int),
        is_char_boundary(s.spec_bytes(), z as int),
    ensures
        opt_bytes(r) == trimmed_opt(s.spec_bytes(), a as int, z as int),
{
    let b = s.as_bytes();
    proof {
        lemma_str_valid(s);
        lemma_trim_boundaries(b@, a as int, z as int);
    }
    let (x, y) = trim_range(b, a, z);
    if x == y {
        None
    } else {
        Some(crate::text::owned_slice(s, x, y))
    }
}

fn trimmed_exec(s: &str, a: usize, z: usize) -> (r: String)
    requires
        a <= z <= s.spec_bytes().len(),
        is_char_boundary(s.spec_bytes(), a as int),
        is_char_boundary(s.spec_bytes(), z as int),
    ensures
        utf8_bytes(r@) == trimmed_in(s.spec_bytes(), a as int, z as int),
{
    let b = s.as_bytes();
    proof {
        lemma_str_valid(s);
        lemma_trim_boundaries(b@, a as int, z as int);
    }
    let (x, y) = trim_range(b, a, z);
    crate::text::owned_slice(s, x, y)
}

/// Splits the link text `s[a..z]` into target, anchor and alias.
pub(crate) fn parse_wiki_link_inner(s: &str, a: usize, z: usize) -> (r: (String, Option<String>, Option<String>))
    requires
        a <= z <= s.spec_bytes().len(),
        is_char_boundary(s.spec_bytes(), a as int),
        is_char_boundary(s.spec_bytes(), z as int),
    ensures
        (utf8_bytes(r.0@), opt_bytes(r.1), opt_bytes(r.2)) == link_of(s.spec_bytes(), a as int, z as int),
{
    let b = s.as_bytes();
    proof {
        lemma_str_valid(s);
        crate::text::lemma_rfind_props(b@, z as int, seq![0x7Cu8]);
    }
    let pipe_pat: [u8; 1] = [0x7C];
    let k = crate::text::rfind_pat(b, z, pipe_pat.as_slice());
    assert(pipe_pat@ =~= seq![0x7Cu8]);
    let pipe: Option<usize> = match k {
        Some(k) => if k >= a {
            Some(k)
        } else {
            None
        },
        None => None,
    };
    let (pe, alias) = match pipe {
        None => (z, None),
        Some(p) => {
            proof {
                assert(b@.subrange(p as int, p + 1)[0] == b@[p as int]);
                lemma_after_ascii(b@, p as int);
            }
            (p, trimmed_opt_exec(s, p + 1, z))
        },
    };
    let h = crate::text::find_byte_exec(b, a, pe, 0x23);
    proof {
        crate::text::lemma_find_byte_props(b@, a as int, pe as int, 0x23);
    }
    match h {
        None => (trimmed_exec(s, a, pe), None, alias),
        Some(h) => {
            proof {
                lemma_after_ascii(b@, h as int);
            }
            (trimmed_exec(s, a, h), trimmed_opt_exec(s, h + 1, pe), alias)
        },
    }
}


fn wiki_scan_range(
    s: &str,
    lo: usize,
    hi: usize,
    links: &mut Vec<WikiLink>,
    embeds: &mut Vec<ImageEmbed>,
)
    requires
        lo <= hi <= s.spec_bytes().len(),
        is_char_boundary(s.spec_bytes(), lo as int),
        is_char_boundary(s.spec_bytes(), hi as int),
    ensures
        links_view(final(links)@) == links_view(old(links)@) + wiki_scan(
            s.spec_bytes(),
            lo as int,
            hi as int,
            lo as int,
        ).0,
        embeds_view(final(embeds)@) == embeds_view(old(embeds)@) + wiki_scan(
            s.spec_bytes(),
            lo as int,
            hi as int,
            lo as int,
        ).1,
{
    let b = s.as_bytes();
    proof {
        lemma_str_valid(s);
    }
    let ghost l0 = links_view(links@);
    let ghost e0 = embeds_view(embeds@);
    let ghost full = wiki_scan(b@, lo as int, hi as int, lo as int);
    let open_pat: [u8; 2] = [0x5B, 0x5B];
    let close_pat: [u8; 2] = [0x5D, 0x5D];
    assert(open_pat@ =~= open_brackets());
    assert(close_pat@ =~= close_brackets());
    let mut cur = lo;
    loop
        invariant
            lo <= cur,
            hi <= b@.len(),
            b@ == s.spec_bytes(),
            valid_utf8(b@),
            open_pat@ == open_brackets(),
            close_pat@ == close_brackets(),
            l0 == links_view(old(links)@),
            e0 == embeds_view(old(embeds)@),
            full == wiki_scan(b@, lo as int, hi as int, lo as int),
            full.0 == links_view(links@).subrange(l0.len() as int, links_view(links@).len() as int)
                + wiki_scan(b@, lo as int, hi as int, cur as int).0,
            full.1 == embeds_view(embeds@).subrange(e0.len() as int, embeds_view(embeds@).len() as int)
                + wiki_scan(b@, lo as int, hi as int, cur as int).1,
            links_view(links@).subrange(0, l0.len() as int) == l0,
            embeds_view(embeds@).subrange(0, e0.len() as int) == e0,
            l0.len() <= links@.len(),
            e0.len() <= embeds@.len(),
        ensures
            wiki_scan(b@, lo as int, hi as int, cur as int).0 =~= Seq::<(Seq<u8>, Option<Seq<u8>>, Option<Seq<u8>>)>::empty(),
            wiki_scan(b@, lo as int, hi as int, cur as int).1 =~= Seq::<Seq<u8>>::empty(),
            full.0 == links_view(links@).subrange(l0.len() as int, links_view(links@).len() as int),
            full.1 == embeds_view(embeds@).subrange(e0.len() as int, embeds_view(embeds@).len() as int),
            links_view(links@).subrange(0, l0.len() as int) == l0,
            embeds_view(embeds@).subrange(0, e0.len() as int) == e0,
        decreases hi - cur,
    {
        let start = match crate::text::find_within_exec(b, cur, hi, open_pat.as_slice()) {
            None => {
                break;
            },
            Some(k) => k,
        };
        proof {
            crate::text::lemma_find_within(b@, cur as int, hi as int, open_brackets());
        }
        let ts = start + 2;
        let end = match crate::text::find_within_exec(b, ts, hi, close_pat.as_slice()) {
            None => {
                break;
            },
            Some(k) => k,
        };
        proof {
            crate::text::lemma_find_within(b@, ts as int, hi as int, close_brackets());
            assert(b@.subrange(start as int, start + 2)[1] == b@[start + 1]);
            assert(b@.subrange(end as int, end + 2)[0] == b@[end as int]);
            assert(b@.subrange(end as int, end + 2)[1] == b@[end + 1]);
            lemma_after_ascii(b@, start + 1);
            lemma_after_ascii(b@, end as int);
            lemma_after_ascii(b@, end + 1);
            lemma_trim_boundaries(b@, ts as int, end as int);
        }
        let ghost lv = links_view(links@);
        let ghost ev = embeds_view(embeds@);
        let ghost rest = wiki_scan(b@, lo as int, hi as int, end + 2);
        let (ia, iz) = trim_range(b, ts, end);
        if ia < iz {
            let is_image = start > 0 && b[start - 1] == 0x21 && (start - 1 == 0 || {
                let c = b[start - 2];
                c == 0x20 || c == 0x09 || c == 0x0A || c == 0x0D || c == 0x28 || c == 0x5B || c
                    == 0x3E
            });
            if is_image {
                let target = crate::text::owned_slice(s, ia, iz);
                let e = ImageEmbed { target };
                embeds.push(e);
                proof {
                    assert(embeds_view(embeds@) =~= ev.push(e@));
                    assert(embeds_view(embeds@).subrange(0, e0.len() as int) =~= ev.subrange(
                        0,
                        e0.len() as int,
                    ));
                    assert(embeds_view(embeds@).subrange(e0.len() as int, embeds_view(embeds@).len() as int)
                        + rest.1 =~= ev.subrange(e0.len() as int, ev.len() as int) + wiki_scan(
                        b@,
                        lo as int,
                        hi as int,
                        cur as int,
                    ).1);
                }
            } else {
                let (target, anchor, alias) = parse_wiki_link_inner(s, ia, iz);
                if target.as_str().as_bytes().len() > 0 {
                    let l = WikiLink { target, anchor, alias };
                    links.push(l);
                    proof {
                        assert(links_view(links@) =~= lv.push(l@));
                        assert(links_view(links@).subrange(0, l0.len() as int) =~= lv.subrange(
                            0,
                            l0.len() as int,
                        ));
                        assert(links_view(links@).subrange(l0.len() as int, links_view(links@).len() as int)
                            + rest.0 =~= lv.subrange(l0.len() as int, lv.len() as int) + wiki_scan(
                            b@,
                            lo as int,
                            hi as int,
                            cur as int,
                        ).0);
                    }
                }
            }
        }
        cur = end + 2;
    }
    proof {
        assert(links_view(links@) =~= l0 + links_view(links@).subrange(l0.len() as int, links_view(links@).len() as int));
        assert(embeds_view(embeds@) =~= e0 + embeds_view(embeds@).subrange(e0.len() as int, embeds_view(embeds@).len() as int));
    }
}


// ---------------------------------------------------------------------------
// Inline tags
// ---------------------------------------------------------------------------
/// Length of the run of tag bytes starting at `p`, staying below `hi`.
pub open spec fn tag_run(b: Seq<u8>, p: int, hi: int) -> int
    decreases hi - p,
{
    if p < 0 || p >= hi || hi > b.len() || !is_tag_byte(b[p]) {
        0
    } else {
        1 + tag_run(b, p + 1, hi)
    }
}

pub proof fn lemma_tag_run(b: Seq<u8>, p: int, hi: int)
    requires
        0 <= p <= hi <= b.len(),
    ensures
        0 <= tag_run(b, p, hi) <= hi - p,
        forall|j: int| p <= j < p + tag_run(b, p, hi) ==> is_tag_byte(b[j]),
        p + tag_run(b, p, hi) < hi ==> !is_tag_byte(b[p + tag_run(b, p, hi)]),
    decreases hi - p,
{
    if p < hi && is_tag_byte(b[p]) {
        lemma_tag_run(b, p + 1, hi);
    }
}

/// An inline tag runs over every ASCII letter, ASCII digit, `_`, `-` and
/// `/` that follows, and stops at the first other byte or at the end.
pub proof fn lemma_tag_run_alphabet(b: Seq<u8>, p: int, hi: int)
    requires
        0 <= p <= hi <= b.len(),
    ensures
        forall|j: int|
            p <= j < p + tag_run(b, p, hi) ==> ((0x30 <= #[trigger] b[j] && b[j] <= 0x39) || (0x41 <= b[j] && b[j]
                <= 0x5A) || (0x61 <= b[j] && b[j] <= 0x7A) || b[j] == 0x5F || b[j] == 0x2D || b[j] == 0x2F),
        p + tag_run(b, p, hi) == hi || !((0x30 <= b[p + tag_run(b, p, hi)] && b[p + tag_run(b, p, hi)] <= 0x39)
            || (0x41 <= b[p + tag_run(b, p, hi)] && b[p + tag_run(b, p, hi)] <= 0x5A) || (0x61 <= b[p + tag_run(
            b,
            p,
            hi,
        )] && b[p + tag_run(b, p, hi)] <= 0x7A) || b[p + tag_run(b, p, hi)] == 0x5F || b[p + tag_run(b, p, hi)]
            == 0x2D || b[p + tag_run(b, p, hi)] == 0x2F),
{
    lemma_tag_run(b, p, hi);
}

/// Whether a `#` at `p` may start a tag: it opens the body or follows whitespace.
pub open spec fn tag_start_ok(b: Seq<u8>, p: int) -> bool {
    p == 0 || crate::text::ws_len_before(b, p) > 0
}

/// Inline tags of the segment `b[lo..hi]` from `p`, in order: `#` at a tag
/// start followed by tag bytes. Code spans between backticks are skipped, and
/// an unclosed backtick hides the rest of the segment.
pub open spec fn tag_scan(b: Seq<u8>, lo: int, hi: int, p: int) -> Seq<Seq<u8>>
    decreases hi - p,
{
    if p < 0 || p < lo || p >= hi || hi > b.len() {
        Seq::empty()
    } else if b[p] == 0x60 {
        let k = find_byte(b, p + 1, hi, 0x60);
        if k == -1 {
            Seq::empty()
        } else {
            proof {
                crate::text::lemma_find_byte_props(b, p + 1, hi, 0x60);
            }
            tag_scan(b, lo, hi, k + 1)
        }
    } else if b[p] == 0x23 && tag_start_ok(b, p) && tag_run(b, p + 1, hi) > 0 {
        proof {
            lemma_tag_run(b, p + 1, hi);
        }
        seq![b.subrange(p + 1, p + 1 + tag_run(b, p + 1, hi))] + tag_scan(
            b,
            lo,
            hi,
            p + 1 + tag_run(b, p + 1, hi),
        )
    } else {
        tag_scan(b, lo, hi, p + 1)
    }
}

/// Inline tag occurrences of a list of ranges, in order.
pub open spec fn tags_over(b: Seq<u8>, rs: Seq<(int, int)>) -> Seq<Seq<u8>>
    decreases rs.len(),
{
    if rs.len() == 0 {
        Seq::empty()
    } else {
        tags_over(b, rs.drop_last()) + tag_scan(b, rs.last().0, rs.last().1, rs.last().0)
    }
}

/// `s` without repeated items, first occurrences kept in order.
pub open spec fn dedup_first(s: Seq<Seq<u8>>) -> Seq<Seq<u8>>
    decreases s.len(),
{
    if s.len() == 0 {
        Seq::empty()
    } else if dedup_first(s.drop_last()).contains(s.last()) {
        dedup_first(s.drop_last())
    } else {
        dedup_first(s.drop_last()).push(s.last())
    }
}

/// The inline tags of a body outside fenced code, deduplicated, in order.
pub open spec fn inline_tags_of(b: Seq<u8>) -> Seq<Seq<u8>> {
    dedup_first(tags_over(b, non_fence(b)))
}

fn is_tag_byte_exec(c: u8) -> (r: bool)
    ensures
        r == is_tag_byte(c),
{
    (0x30 <= c && c <= 0x39) || (0x41 <= c && c <= 0x5A) || (0x61 <= c && c <= 0x7A) || c == 0x5F
        || c == 0x2D || c == 0x2F
}

fn push_unique_tag(out: &mut Vec<Tag>, t: Tag)
    ensures
        tag_names(final(out)@) == if tag_names(old(out)@).contains(t.view_bytes()) {
            tag_names(old(out)@)
        } else {
            tag_names(old(out)@).push(t.view_bytes())
        },
        forall|i: int| 0 <= i < old(out)@.len() ==> final(out)@[i] == old(out)@[i],
        final(out)@.len() == old(out)@.len() || (final(out)@.len() == old(out)@.len() + 1
            && final(out)@.last() == t),
{
    let ghost names = tag_names(out@);
    let mut i: usize = 0;
    while i < out.len()
        invariant
            0 <= i <= out@.len(),
            names == tag_names(out@),
            out@ == old(out)@,
            forall|j: int| 0 <= j < i ==> names[j] != t.view_bytes(),
        decreases out@.len() - i,
    {
        if out[i].order(&t) == 0 {
            proof {
                lemma_bytes_order(out@[i as int].view_bytes(), t.view_bytes());
                assert(names[i as int] == t.view_bytes());
            }
            return;
        }
        proof {
            lemma_bytes_order(out@[i as int].view_bytes(), t.view_bytes());
        }
        i = i + 1;
    }
    let ghost tv = t.view_bytes();
    out.push(t);
    assert(tag_names(out@) =~= names.push(tv));
}

/// Scans the segment `s[lo..hi]` for inline tags, adding new ones to `out`.
fn tag_scan_range(s: &str, lo: usize, hi: usize, out: &mut Vec<Tag>, Ghost(done): Ghost<Seq<Seq<u8>>>)
    requires
        lo <= hi <= s.spec_bytes().len(),
        tag_names(old(out)@) == dedup_first(done),
        forall|i: int| 0 <= i < old(out)@.len() ==> (#[trigger] old(out)@[i]).wf(),
    ensures
        tag_names(final(out)@) == dedup_first(done + tag_scan(s.spec_bytes(), lo as int, hi as int, lo as int)),
        forall|i: int| 0 <= i < final(out)@.len() ==> (#[trigger] final(out)@[i]).wf(),
{
    let b = s.as_bytes();
    proof {
        lemma_str_valid(s);
    }
    let ghost mut acc = done;
    let mut p = lo;
    while p < hi
        invariant
            lo <= p <= hi <= b@.len(),
            b@ == s.spec_bytes(),
            valid_utf8(b@),
            tag_names(out@) == dedup_first(acc),
            acc + tag_scan(b@, lo as int, hi as int, p as int) == done + tag_scan(
                b@,
                lo as int,
                hi as int,
                lo as int,
            ),
            forall|i: int| 0 <= i < out@.len() ==> (#[trigger] out@[i]).wf(),
        decreases hi - p,
    {
        if b[p] == 0x60 {
            match crate::text::find_byte_exec(b, p + 1, hi, 0x60) {
                None => {
                    assert(acc + tag_scan(b@, lo as int, hi as int, hi as int) =~= acc + tag_scan(
                        b@,
                        lo as int,
                        hi as int,
                        p as int,
                    ));
                    p = hi;
                },
                Some(k) => {
                    proof {
                        crate::text::lemma_find_byte_props(b@, p + 1, hi as int, 0x60);
                    }
                    p = k + 1;
                },
            }
        } else {
            let start_ok = p == 0 || crate::text::ws_len_before_exec(b, p) > 0;
            if b[p] == 0x23 && start_ok {
                let mut q = p + 1;
                while q < hi && is_tag_byte_exec(b[q])
                    invariant
                        p + 1 <= q <= hi <= b@.len(),
                        tag_run(b@, p + 1, hi as int) == (q - p - 1) + tag_run(b@, q as int, hi as int),
                    decreases hi - q,
                {
                    q = q + 1;
                }
                if q > p + 1 {
                    proof {
                        lemma_tag_run(b@, p + 1, hi as int);
                        lemma_after_ascii(b@, p as int);
                        lemma_after_ascii(b@, q - 1);
                        assert(is_valid_tag_name(b@.subrange(p + 1, q as int)));
                    }
                    let t = Tag::from_range(s, p + 1, q);
                    let ghost x = b@.subrange(p + 1, q as int);
                    push_unique_tag(out, t);
                    proof {
                        assert(acc.push(x).drop_last() =~= acc);
                        assert(acc.push(x) + tag_scan(b@, lo as int, hi as int, q as int) =~= acc
                            + tag_scan(b@, lo as int, hi as int, p as int));
                        acc = acc.push(x);
                    }
                    p = q;
                } else {
                    p = p + 1;
                }
            } else {
                p = p + 1;
            }
        }
    }
    assert(acc + tag_scan(b@, lo as int, hi as int, p as int) =~= acc);
}


// ---------------------------------------------------------------------------
// Note analysis
// ---------------------------------------------------------------------------
/// Extracted note content used by indexing, outlines, backlinks and graphs.
#[derive(Debug, Clone, PartialEq, Eq)]
pub struct NoteAnalysis {
    headings: Vec<Heading>,
    wiki_links: Vec<WikiLink>,
    image_embeds: Vec<ImageEmbed>,
    inline_tags: Vec<Tag>,
}

impl NoteAnalysis {
    pub closed spec fn headings_v(&self) -> Seq<(int, Seq<u8>)> {
        headings_view(self.headings@)
    }

    pub closed spec fn links_v(&self) -> Seq<(Seq<u8>, Option<Seq<u8>>, Option<Seq<u8>>)> {
        links_view(self.wiki_links@)
    }

    pub closed spec fn embeds_v(&self) -> Seq<Seq<u8>> {
        embeds_view(self.image_embeds@)
    }

    pub closed spec fn tags_v(&self) -> Seq<Seq<u8>> {
        tag_names(self.inline_tags@)
    }

    /// Every inline tag holds a valid name.
    pub closed spec fn wf(&self) -> bool {
        forall|i: int| 0 <= i < self.inline_tags@.len() ==> (#[trigger] self.inline_tags@[i]).wf()
    }

    /// Extracts headings, wiki links, image embeds and inline tags from the
    /// body of a note, outside fenced code blocks.
    pub fn from_note(note: &MarkdownNote) -> (r: NoteAnalysis)
        ensures
            r.headings_v() == headings_of(note.body_bytes()),
            r.links_v() == wiki_links_of(note.body_bytes()),
            r.embeds_v() == image_embeds_of(note.body_bytes()),
            r.tags_v() == inline_tags_of(note.body_bytes()),
            r.wf(),
    {
        let body = note.body();
        let b = body.as_bytes();
        proof {
            lemma_str_valid(body);
            lemma_non_fence_ok(b@);
        }
        let ranges = non_fence_ranges(body);
        let ghost rs = ranges_view(ranges@);
        let mut headings: Vec<Heading> = Vec::new();
        let mut wiki_links: Vec<WikiLink> = Vec::new();
        let mut image_embeds: Vec<ImageEmbed> = Vec::new();
        let mut inline_tags: Vec<Tag> = Vec::new();
        let mut i: usize = 0;
        assert(rs.take(0) =~= Seq::<(int, int)>::empty());
        assert(dedup_first(Seq::<Seq<u8>>::empty()) =~= tag_names(inline_tags@));
        while i < ranges.len()
            invariant
                0 <= i <= ranges@.len(),
                b@ == body.spec_bytes(),
                rs == ranges_view(ranges@),
                rs == non_fence(b@),
                ranges_ok(b@, rs),
                headings_view(headings@) == headings_over(b@, rs.take(i as int)),
                links_view(wiki_links@) == wiki_over(b@, rs.take(i as int)).0,
                embeds_view(image_embeds@) == wiki_over(b@, rs.take(i as int)).1,
                tag_names(inline_tags@) == dedup_first(tags_over(b@, rs.take(i as int))),
                forall|j: int| 0 <= j < inline_tags@.len() ==> (#[trigger] inline_tags@[j]).wf(),
            decreases ranges@.len() - i,
        {
            let lo = ranges[i].start;
            let hi = ranges[i].end;
            assert(rs[i as int] == (lo as int, hi as int));
            assert(rs.take(i + 1).drop_last() =~= rs.take(i as int));
            assert(rs.take(i + 1).last() == rs[i as int]);
            headings_in_range(body, lo, hi, &mut headings);
            wiki_scan_range(body, lo, hi, &mut wiki_links, &mut image_embeds);
            tag_scan_range(body, lo, hi, &mut inline_tags, Ghost(tags_over(b@, rs.take(i as int))));
            i = i + 1;
        }
        assert(rs.take(i as int) =~= rs);
        NoteAnalysis { headings, wiki_links, image_embeds, inline_tags }
    }

    /// Returns Markdown headings in body order.
    pub fn headings(&self) -> (r: &[Heading])
        ensures
            headings_view(r@) == self.headings_v(),
    {
        self.headings.as_slice()
    }

    /// Returns non-image wiki links in body order.
    pub fn wiki_links(&self) -> (r: &[WikiLink])
        ensures
            links_view(r@) == self.links_v(),
    {
        self.wiki_links.as_slice()
    }

    /// Returns wiki-style image embeds in body order.
    pub fn image_embeds(&self) -> (r: &[ImageEmbed])
        ensures
            embeds_view(r@) == self.embeds_v(),
    {
        self.image_embeds.as_slice()
    }

    /// Returns the inline `#tags` of the body, deduplicated, in body order.
    pub fn inline_tags(&self) -> (r: &[Tag])
        ensures
            tag_names(r@) == self.tags_v(),
            self.wf() ==> forall|i: int| 0 <= i < r@.len() ==> (#[trigger] r@[i]).wf(),
    {
        self.inline_tags.as_slice()
    }
}


// ---------------------------------------------------------------------------
// Merged tags
// ---------------------------------------------------------------------------
/// Names strictly increase.
pub open spec fn names_sorted(s: Seq<Seq<u8>>) -> bool {
    forall|i: int, j: int| 0 <= i < j < s.len() ==> bytes_order(#[trigger] s[i], #[trigger] s[j]) < 0
}

/// Inserts the name `x` before the first name that is not smaller, unless it
/// is already there.
pub open spec fn insert_name(s: Seq<Seq<u8>>, x: Seq<u8>) -> Seq<Seq<u8>>
    decreases s.len(),
{
    if s.len() == 0 {
        seq![x]
    } else if bytes_order(x, s[0]) < 0 {
        seq![x] + s
    } else if bytes_order(x, s[0]) == 0 {
        s
    } else {
        seq![s[0]] + insert_name(s.drop_first(), x)
    }
}

/// The sorted set of names of `s`, built by inserting them in order.
pub open spec fn fold_names(s: Seq<Seq<u8>>) -> Seq<Seq<u8>>
    decreases s.len(),
{
    if s.len() == 0 {
        Seq::empty()
    } else {
        insert_name(fold_names(s.drop_last()), s.last())
    }
}

pub proof fn lemma_insert_name_at(s: Seq<Seq<u8>>, x: Seq<u8>, i: int)
    requires
        0 <= i <= s.len(),
        forall|j: int| 0 <= j < i ==> bytes_order(#[trigger] s[j], x) < 0,
    ensures
        i == s.len() ==> insert_name(s, x) == s.push(x),
        i < s.len() && bytes_order(s[i], x) > 0 ==> insert_name(s, x) == s.take(i) + seq![x] + s.skip(i),
        i < s.len() && bytes_order(s[i], x) == 0 ==> insert_name(s, x) == s,
    decreases i,
{
    if i > 0 {
        let t = s.drop_first();
        assert forall|j: int| 0 <= j < i - 1 implies bytes_order(#[trigger] t[j], x) < 0 by {
            assert(t[j] == s[j + 1]);
        }
        lemma_insert_name_at(t, x, i - 1);
        lemma_bytes_order(s[0], x);
        assert(bytes_order(x, s[0]) > 0);
        if i == s.len() {
            assert(s.push(x) =~= seq![s[0]] + t.push(x));
        } else {
            assert(t[i - 1] == s[i]);
            assert(s.take(i) + seq![x] + s.skip(i) =~= seq![s[0]] + (t.take(i - 1) + seq![x] + t.skip(i - 1)));
            assert(s =~= seq![s[0]] + t);
        }
    } else {
        if s.len() == 0 {
            assert(s.push(x) =~= seq![x]);
        } else {
            lemma_bytes_order(s[0], x);
            assert(s.take(0) + seq![x] + s.skip(0) =~= seq![x] + s);
        }
    }
}

/// The frontmatter tags of a note: none without frontmatter.
pub open spec fn note_fm_tags(note: MarkdownNote) -> Seq<Seq<u8>> {
    match note.fm() {
        None => Seq::empty(),
        Some(f) => match crate::note::lookup(f, crate::note::tags_key()) {
            Some(ValueView::List(items)) => valid_tags(items),
            _ => Seq::empty(),
        },
    }
}

/// Inserts `t` into the strictly sorted list `out`, unless its name is there.
pub(crate) fn insert_sorted_tag(out: &mut Vec<Tag>, t: Tag)
    requires
        names_sorted(tag_names(old(out)@)),
    ensures
        tag_names(final(out)@) == insert_name(tag_names(old(out)@), t.view_bytes()),
        names_sorted(tag_names(final(out)@)),
        forall|x: Seq<u8>| tag_names(final(out)@).contains(x) <==> (tag_names(old(out)@).contains(x)
            || x == t.view_bytes()),
        forall|i: int| 0 <= i < final(out)@.len() ==> (#[trigger] final(out)@[i] == t || old(out)@.contains(final(out)@[i])),
{
    let ghost names = tag_names(out@);
    let ghost x = t.view_bytes();
    let mut i: usize = 0;
    while i < out.len()
        invariant
            0 <= i <= out@.len(),
            names == tag_names(out@),
            out@ == old(out)@,
            names_sorted(names),
            x == t.view_bytes(),
            forall|j: int| 0 <= j < i ==> bytes_order(#[trigger] names[j], x) < 0,
        decreases out@.len() - i,
    {
        let c = out[i].order(&t);
        assert(names[i as int] == out@[i as int].view_bytes());
        proof {
            lemma_insert_name_at(names, x, i as int);
        }
        if c == 0 {
            proof {
                lemma_bytes_order(names[i as int], x);
                assert forall|y: Seq<u8>| names.contains(y) <==> (names.contains(y) || y == x) by {
                    if y == x {
                        assert(names[i as int] == y);
                    }
                }
            }
            return;
        }
        if c > 0 {
            let ghost old_out = out@;
            out.insert(i, t);
            proof {
                let r = tag_names(out@);
                assert(r =~= names.take(i as int) + seq![x] + names.skip(i as int));
                lemma_bytes_order(names[i as int], x);
                assert forall|a: int, bb: int| 0 <= a < bb < r.len() implies bytes_order(
                    #[trigger] r[a],
                    #[trigger] r[bb],
                ) < 0 by {
                    if bb < i {
                    } else if bb == i {
                        assert(r[a] == names[a]);
                    } else if a < i {
                        assert(r[bb] == names[bb - 1]);
                        assert(r[a] == names[a]);
                        if bb - 1 > i {
                            assert(bytes_order(names[i as int], names[bb - 1]) < 0);
                            crate::path::lemma_bytes_order_trans(x, names[i as int], names[bb - 1], 0);
                        }
                        assert(bytes_order(x, names[bb - 1]) < 0);
                        assert(bytes_order(names[a], x) < 0);
                        crate::path::lemma_bytes_order_trans(names[a], x, names[bb - 1], 0);
                    } else if a == i {
                        assert(r[bb] == names[bb - 1]);
                        if bb - 1 > i {
                            assert(bytes_order(names[i as int], names[bb - 1]) < 0);
                            crate::path::lemma_bytes_order_trans(x, names[i as int], names[bb - 1], 0);
                        }
                    } else {
                        assert(r[a] == names[a - 1] && r[bb] == names[bb - 1]);
                    }
                }
                assert forall|y: Seq<u8>| r.contains(y) <==> (names.contains(y) || y == x) by {
                    if r.contains(y) {
                        let k = choose|k: int| 0 <= k < r.len() && r[k] == y;
                        if k < i {
                            assert(names[k] == y);
                        } else if k > i {
                            assert(names[k - 1] == y);
                        }
                    }
                    if names.contains(y) {
                        let k = choose|k: int| 0 <= k < names.len() && names[k] == y;
                        if k < i {
                            assert(r[k] == y);
                        } else {
                            assert(r[k + 1] == y);
                        }
                    }
                    if y == x {
                        assert(r[i as int] == y);
                    }
                }
                assert forall|k: int| 0 <= k < out@.len() implies (#[trigger] out@[k] == t
                    || old_out.contains(out@[k])) by {
                    if k < i {
                        assert(out@[k] == old_out[k]);
                    } else if k > i {
                        assert(out@[k] == old_out[k - 1]);
                    }
                }
            }
            return;
        }
        proof {
            lemma_bytes_order(names[i as int], x);
        }
        i = i + 1;
    }
    let ghost old_out = out@;
    proof {
        lemma_insert_name_at(names, x, i as int);
    }
    out.push(t);
    proof {
        let r = tag_names(out@);
        assert(r =~= names.push(x));
        assert forall|y: Seq<u8>| r.contains(y) <==> (names.contains(y) || y == x) by {
            if r.contains(y) {
                let k = choose|k: int| 0 <= k < r.len() && r[k] == y;
                if k < names.len() {
                    assert(names[k] == y);
                }
            }
            if names.contains(y) {
                let k = choose|k: int| 0 <= k < names.len() && names[k] == y;
                assert(r[k] == y);
            }
            if y == x {
                assert(r[names.len() as int] == y);
            }
        }
        assert forall|k: int| 0 <= k < out@.len() implies (#[trigger] out@[k] == t || old_out.contains(
            out@[k],
        )) by {
            if k < old_out.len() {
                assert(out@[k] == old_out[k]);
            }
        }
    }
}

/// Returns the union of the frontmatter `tags:` and the inline tags of a
/// note, deduplicated and sorted by name.
pub fn merged_tags(note: &MarkdownNote, analysis: &NoteAnalysis) -> (r: Vec<Tag>)
    requires
        analysis.wf(),
    ensures
        tag_names(r@) == fold_names(note_fm_tags(*note) + analysis.tags_v()),
        names_sorted(tag_names(r@)),
        forall|x: Seq<u8>| tag_names(r@).contains(x) <==> (note_fm_tags(*note).contains(x)
            || analysis.tags_v().contains(x)),
        forall|i: int| 0 <= i < r@.len() ==> (#[trigger] r@[i]).wf(),
{
    let fm_tags: Vec<Tag> = match note.frontmatter() {
        None => Vec::new(),
        Some(f) => f.tags(),
    };
    assert(tag_names(fm_tags@) == note_fm_tags(*note)) by {
        if note.fm() is None {
            assert(tag_names(fm_tags@) =~= Seq::<Seq<u8>>::empty());
        }
    }
    let inline = analysis.inline_tags();
    let mut out: Vec<Tag> = Vec::new();
    let mut i: usize = 0;
    while i < fm_tags.len()
        invariant
            0 <= i <= fm_tags@.len(),
            names_sorted(tag_names(out@)),
            tag_names(out@) == fold_names(tag_names(fm_tags@).take(i as int)),
            forall|x: Seq<u8>| tag_names(out@).contains(x) <==> tag_names(fm_tags@).take(i as int).contains(x),
            forall|k: int| 0 <= k < out@.len() ==> (#[trigger] out@[k]).wf(),
            forall|k: int| 0 <= k < fm_tags@.len() ==> (#[trigger] fm_tags@[k]).wf(),
        decreases fm_tags@.len() - i,
    {
        let ghost before = out@;
        let t = fm_tags[i].duplicate();
        insert_sorted_tag(&mut out, t);
        proof {
            let nf = tag_names(fm_tags@);
            assert(nf.take(i + 1) =~= nf.take(i as int).push(nf[i as int]));
            let t1 = nf.take(i + 1);
            let t0 = nf.take(i as int);
            assert(nf[i as int] == t.view_bytes());
            assert(t1.drop_last() =~= t0);
            assert(t1[i as int] == nf[i as int]);
            assert forall|x: Seq<u8>| tag_names(out@).contains(x) <==> t1.contains(x) by {
                if t1.contains(x) {
                    let k = choose|k: int| 0 <= k < t1.len() && t1[k] == x;
                    if k < i {
                        assert(t0[k] == x);
                    }
                }
                if t0.contains(x) {
                    let k = choose|k: int| 0 <= k < t0.len() && t0[k] == x;
                    assert(t1[k] == x);
                }
            }
            assert forall|k: int| 0 <= k < out@.len() implies (#[trigger] out@[k]).wf() by {
                if out@[k] != t {
                    let m = choose|m: int| 0 <= m < before.len() && before[m] == out@[k];
                }
            }
        }
        i = i + 1;
    }
    let mut j: usize = 0;
    assert(tag_names(fm_tags@).take(i as int) =~= tag_names(fm_tags@) + tag_names(inline@).take(0));
    while j < inline.len()
        invariant
            0 <= j <= inline@.len(),
            i == fm_tags@.len(),
            names_sorted(tag_names(out@)),
            tag_names(out@) == fold_names(tag_names(fm_tags@) + tag_names(inline@).take(j as int)),
            forall|x: Seq<u8>| tag_names(out@).contains(x) <==> (tag_names(fm_tags@).take(i as int).contains(x)
                || tag_names(inline@).take(j as int).contains(x)),
            forall|k: int| 0 <= k < out@.len() ==> (#[trigger] out@[k]).wf(),
            forall|k: int| 0 <= k < inline@.len() ==> (#[trigger] inline@[k]).wf(),
        decreases inline@.len() - j,
    {
        let ghost before = out@;
        let t = inline[j].duplicate();
        insert_sorted_tag(&mut out, t);
        proof {
            let nf = tag_names(inline@);
            assert(nf.take(j + 1) =~= nf.take(j as int).push(nf[j as int]));
            let t1 = nf.take(j + 1);
            let t0 = nf.take(j as int);
            assert(nf[j as int] == t.view_bytes());
            let nfm = tag_names(fm_tags@);
            assert((nfm + t1).drop_last() =~= nfm + t0);
            assert((nfm + t1).last() == nf[j as int]);
            assert(t1[j as int] == nf[j as int]);
            assert forall|x: Seq<u8>| tag_names(out@).contains(x) <==> (tag_names(fm_tags@).take(i as int).contains(x)
                || t1.contains(x)) by {
                if t1.contains(x) {
                    let k = choose|k: int| 0 <= k < t1.len() && t1[k] == x;
                    if k < j {
                        assert(t0[k] == x);
                    }
                }
                if t0.contains(x) {
                    let k = choose|k: int| 0 <= k < t0.len() && t0[k] == x;
                    assert(t1[k] == x);
                }
            }
            assert forall|k: int| 0 <= k < out@.len() implies (#[trigger] out@[k]).wf() by {
                if out@[k] != t {
                    let m = choose|m: int| 0 <= m < before.len() && before[m] == out@[k];
                }
            }
        }
        j = j + 1;
    }
    assert(tag_names(fm_tags@).take(i as int) =~= tag_names(fm_tags@));
    assert(tag_names(inline@).take(j as int) =~= tag_names(inline@));
    out
}

} // verus!
