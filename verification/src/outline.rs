//! Outline helpers: the display form of a heading line, and where a heading
//! starts in a note source.
use vstd::prelude::*;
use vstd::utf8::*;
use vstd::string::*;
use crate::text::{
    utf8_bytes, skip_ws, run_len, trim_lo, trim_hi, line_end, lemma_str_valid, lemma_after_ascii,
    lemma_trim_boundaries, lemma_skip_ws_boundary, lemma_line_end, skip_ws_exec, run_len_exec,
    trim_range, line_end_exec, owned_slice, lemma_run_len,
};
use crate::analysis::{non_fence, non_fence_ranges, ranges_view, ranges_ok, lemma_non_fence_ok, starts_line, lemma_non_fence_lines};

verus! {

broadcast use vstd::seq::group_seq_axioms;

pub open spec fn is_emph(c: u8) -> bool {
    c == 0x2A || c == 0x5F
}

/// Start of `b[a..z]` once leading `**`, `__`, `*` and `_` markers are removed.
pub open spec fn strip_prefixes(b: Seq<u8>, a: int, z: int) -> int
    decreases z - a,
{
    if 0 <= a && a + 2 <= z && z <= b.len() && is_emph(b[a]) && b[a + 1] == b[a] {
        strip_prefixes(b, a + 2, z)
    } else if 0 <= a && a + 1 <= z && z <= b.len() && is_emph(b[a]) {
        strip_prefixes(b, a + 1, z)
    } else {
        a
    }
}

/// End of `b[a..z]` once trailing `**`, `__`, `*` and `_` markers are removed.
pub open spec fn strip_suffixes(b: Seq<u8>, a: int, z: int) -> int
    decreases z - a,
{
    if 0 <= a && a + 2 <= z && z <= b.len() && is_emph(b[z - 1]) && b[z - 2] == b[z - 1] {
        strip_suffixes(b, a, z - 2)
    } else if 0 <= a && a + 1 <= z && z <= b.len() && is_emph(b[z - 1]) {
        strip_suffixes(b, a, z - 1)
    } else {
        z
    }
}

/// The display form of the heading line `b[lo..hi]`: leading whitespace and
/// `#` markers removed, trimmed, emphasis markers removed from both ends,
/// trimmed again.
pub open spec fn display_text(b: Seq<u8>, lo: int, hi: int) -> Seq<u8> {
    let a0 = skip_ws(b, lo, hi);
    let a1 = a0 + run_len(b, a0, hi, 0x23);
    let a2 = trim_lo(b, a1, hi);
    let z2 = trim_hi(b, a1, hi);
    let p = strip_prefixes(b, a2, z2);
    let e = strip_suffixes(b, p, z2);
    b.subrange(trim_lo(b, p, e), trim_hi(b, p, e))
}

proof fn lemma_strip_prefixes(b: Seq<u8>, a: int, z: int)
    requires
        valid_utf8(b),
        0 <= a <= z <= b.len(),
        is_char_boundary(b, a),
    ensures
        a <= strip_prefixes(b, a, z) <= z,
        is_char_boundary(b, strip_prefixes(b, a, z)),
    decreases z - a,
{
    if a + 2 <= z && is_emph(b[a]) && b[a + 1] == b[a] {
        lemma_after_ascii(b, a + 1);
        lemma_strip_prefixes(b, a + 2, z);
    } else if a + 1 <= z && is_emph(b[a]) {
        lemma_after_ascii(b, a);
        lemma_strip_prefixes(b, a + 1, z);
    }
}

proof fn lemma_strip_suffixes(b: Seq<u8>, a: int, z: int)
    requires
        valid_utf8(b),
        0 <= a <= z <= b.len(),
        is_char_boundary(b, z),
    ensures
        a <= strip_suffixes(b, a, z) <= z,
        is_char_boundary(b, strip_suffixes(b, a, z)),
    decreases z - a,
{
    if a + 2 <= z && is_emph(b[z - 1]) && b[z - 2] == b[z - 1] {
        lemma_after_ascii(b, z - 2);
        lemma_strip_suffixes(b, a, z - 2);
    } else if a + 1 <= z && is_emph(b[z - 1]) {
        lemma_after_ascii(b, z - 1);
        lemma_strip_suffixes(b, a, z - 1);
    }
}

fn display_range(s: &str, lo: usize, hi: usize) -> (r: (usize, usize))
    requires
        lo <= hi <= s.spec_bytes().len(),
        is_char_boundary(s.spec_bytes(), lo as int),
        is_char_boundary(s.spec_bytes(), hi as int),
    ensures
        r.0 <= r.1 <= s.spec_bytes().len(),
        is_char_boundary(s.spec_bytes(), r.0 as int),
        is_char_boundary(s.spec_bytes(), r.1 as int),
        s.spec_bytes().subrange(r.0 as int, r.1 as int) == display_text(s.spec_bytes(), lo as int, hi as int),
{
    let b = s.as_bytes();
    proof {
        lemma_str_valid(s);
        lemma_skip_ws_boundary(b@, lo as int, hi as int);
    }
    let a0 = skip_ws_exec(b, lo, hi);
    let n = run_len_exec(b, a0, hi, 0x23);
    let a1 = a0 + n;
    proof {
        lemma_run_len(b@, a0 as int, hi as int, 0x23);
        if n > 0 {
            lemma_after_ascii(b@, a1 - 1);
        }
        lemma_trim_boundaries(b@, a1 as int, hi as int);
    }
    let (a2, z2) = trim_range(b, a1, hi);
    let mut p = a2;
    while p < z2 && (b[p] == 0x2A || b[p] == 0x5F)
        invariant
            a2 <= p <= z2 <= b@.len(),
            strip_prefixes(b@, a2 as int, z2 as int) == strip_prefixes(b@, p as int, z2 as int),
        decreases z2 - p,
    {
        if z2 - p >= 2 && b[p + 1] == b[p] {
            p = p + 2;
        } else {
            p = p + 1;
        }
    }
    let mut e = z2;
    while e > p && (b[e - 1] == 0x2A || b[e - 1] == 0x5F)
        invariant
            p <= e <= z2 <= b@.len(),
            strip_suffixes(b@, p as int, z2 as int) == strip_suffixes(b@, p as int, e as int),
        decreases e - p,
    {
        if e - p >= 2 && b[e - 2] == b[e - 1] {
            e = e - 2;
        } else {
            e = e - 1;
        }
    }
    proof {
        lemma_strip_prefixes(b@, a2 as int, z2 as int);
        lemma_strip_suffixes(b@, p as int, z2 as int);
        lemma_trim_boundaries(b@, p as int, e as int);
    }
    trim_range(b, p, e)
}

/// Returns the displayable form of a heading line: leading `#` markers and
/// surrounding `**`/`*`/`__`/`_` emphasis markers removed, internal
/// whitespace kept.
pub fn display_heading_text(raw: &str) -> (r: String)
    ensures
        utf8_bytes(r@) == display_text(raw.spec_bytes(), 0, raw.spec_bytes().len() as int),
{
    proof {
        lemma_str_valid(raw);
    }
    let (x, y) = display_range(raw, 0, raw.as_bytes().len());
    owned_slice(raw, x, y)
}

/// Returns whether the outline row for this heading level renders bold.
pub fn heading_is_bold(level: u8) -> (r: bool)
    ensures
        r == (level <= 3),
{
    level <= 3
}

/// End of the text of the line `b[lo..e]`: its `\n` and then its trailing
/// `\r` bytes removed.
pub open spec fn line_text_end(b: Seq<u8>, lo: int, e: int) -> int {
    let e1 = if e > lo && b[e - 1] == 10 {
        e - 1
    } else {
        e
    };
    e1 - rrun_cr(b, lo, e1)
}

/// Number of `\r` bytes ending at `e`, staying above `lo`.
pub open spec fn rrun_cr(b: Seq<u8>, lo: int, e: int) -> int
    decreases e - lo,
{
    if e > lo && 0 < e <= b.len() && b[e - 1] == 13 {
        1 + rrun_cr(b, lo, e - 1)
    } else {
        0
    }
}

/// Whether the line `b[lo..hi]` is a heading of `level` whose display text is `text`.
pub open spec fn heading_line_matches(b: Seq<u8>, lo: int, hi: int, level: int, text: Seq<u8>) -> bool {
    let lvl = run_len(b, lo, hi, 0x23);
    &&& 1 <= lvl <= 6
    &&& lo + lvl < hi
    &&& b[lo + lvl] == 0x20
    &&& lvl == level
    &&& display_text(b, lo, hi) == text
}

/// The start of the first matching heading line of the segment `b[pos..hi]`, or `-1`.
pub open spec fn heading_in(b: Seq<u8>, pos: int, hi: int, level: int, text: Seq<u8>) -> int
    decreases hi - pos,
{
    if pos < 0 || pos >= hi || hi > b.len() {
        -1
    } else {
        let e = crate::note::line_end_within(b, pos, hi);
        proof {
            lemma_line_end(b, pos);
        }
        if heading_line_matches(b, pos, line_text_end(b, pos, e), level, text) {
            pos
        } else {
            heading_in(b, e, hi, level, text)
        }
    }
}

/// The first matching heading over a list of ranges, or `-1`.
pub open spec fn heading_over(b: Seq<u8>, rs: Seq<(int, int)>, level: int, text: Seq<u8>) -> int
    decreases rs.len(),
{
    if rs.len() == 0 {
        -1
    } else if heading_in(b, rs[0].0, rs[0].1, level, text) != -1 {
        heading_in(b, rs[0].0, rs[0].1, level, text)
    } else {
        heading_over(b, rs.drop_first(), level, text)
    }
}

/// The start of the first heading line of `b`, outside fenced code, with the
/// given level and display text, or `-1`.
pub open spec fn heading_offset(b: Seq<u8>, level: int, text: Seq<u8>) -> int {
    heading_over(b, non_fence(b), level, text)
}

proof fn lemma_rrun_cr(b: Seq<u8>, lo: int, e: int)
    requires
        0 <= lo <= e <= b.len(),
    ensures
        0 <= rrun_cr(b, lo, e) <= e - lo,
        forall|j: int| e - rrun_cr(b, lo, e) <= j < e ==> b[j] == 13,
    decreases e - lo,
{
    if e > lo && b[e - 1] == 13 {
        lemma_rrun_cr(b, lo, e - 1);
    }
}

/// Whether the line starting at `p`, cut at `hi`, is a heading of `level`
/// whose display text is `text`.
pub open spec fn heading_line_at(b: Seq<u8>, p: int, hi: int, level: int, text: Seq<u8>) -> bool {
    heading_line_matches(b, p, line_text_end(b, p, crate::note::line_end_within(b, p, hi)), level, text)
}

/// Whether `p` starts a line inside one of the ranges `rs` that is a heading
/// of `level` whose display text is `text`.
pub open spec fn heading_at(b: Seq<u8>, rs: Seq<(int, int)>, p: int, level: int, text: Seq<u8>) -> bool {
    exists|i: int|
        0 <= i < rs.len() && (#[trigger] rs[i]).0 <= p < rs[i].1 && starts_line(b, p) && heading_line_at(
            b,
            p,
            rs[i].1,
            level,
            text,
        )
}

proof fn lemma_line_end_before(b: Seq<u8>, pos: int, p: int)
    requires
        0 <= pos < p <= b.len(),
        starts_line(b, p),
    ensures
        line_end(b, pos) <= p,
{
    lemma_line_end(b, pos);
    if p < line_end(b, pos) {
        assert(b[p - 1] != 10);
    }
}

proof fn lemma_heading_in_least(b: Seq<u8>, pos: int, hi: int, level: int, text: Seq<u8>)
    requires
        0 <= pos,
        hi <= b.len(),
        pos < hi ==> starts_line(b, pos),
    ensures
        heading_in(b, pos, hi, level, text) != -1 ==> ({
            let r = heading_in(b, pos, hi, level, text);
            pos <= r < hi && starts_line(b, r) && heading_line_at(b, r, hi, level, text)
        }),
        forall|p: int|
            pos <= p < hi && starts_line(b, p) && #[trigger] heading_line_at(b, p, hi, level, text) ==> heading_in(
                b,
                pos,
                hi,
                level,
                text,
            ) != -1 && heading_in(b, pos, hi, level, text) <= p,
    decreases hi - pos,
{
    if pos < hi {
        lemma_line_end(b, pos);
        let e = crate::note::line_end_within(b, pos, hi);
        if !heading_line_at(b, pos, hi, level, text) {
            lemma_heading_in_least(b, e, hi, level, text);
            assert forall|p: int|
                pos <= p < hi && starts_line(b, p) && #[trigger] heading_line_at(b, p, hi, level, text) implies heading_in(
                b,
                pos,
                hi,
                level,
                text,
            ) != -1 && heading_in(b, pos, hi, level, text) <= p by {
                lemma_line_end_before(b, pos, p);
            }
        }
    }
}

proof fn lemma_heading_over_least(b: Seq<u8>, rs: Seq<(int, int)>, level: int, text: Seq<u8>)
    requires
        forall|i: int| 0 <= i < rs.len() ==> 0 <= (#[trigger] rs[i]).0 < rs[i].1 <= b.len() && starts_line(b, rs[i].0),
        forall|i: int, j: int| 0 <= i < j < rs.len() ==> (#[trigger] rs[i]).1 <= (#[trigger] rs[j]).0,
    ensures
        heading_over(b, rs, level, text) != -1 ==> heading_at(b, rs, heading_over(b, rs, level, text), level, text),
        forall|p: int|
            #[trigger] heading_at(b, rs, p, level, text) ==> heading_over(b, rs, level, text) != -1 && heading_over(
                b,
                rs,
                level,
                text,
            ) <= p,
    decreases rs.len(),
{
    if rs.len() > 0 {
        let t = rs.drop_first();
        lemma_heading_in_least(b, rs[0].0, rs[0].1, level, text);
        assert forall|i: int| 0 <= i < t.len() implies 0 <= (#[trigger] t[i]).0 < t[i].1 <= b.len() && starts_line(
            b,
            t[i].0,
        ) by {
            assert(t[i] == rs[i + 1]);
        }
        assert forall|i: int, j: int| 0 <= i < j < t.len() implies (#[trigger] t[i]).1 <= (#[trigger] t[j]).0 by {
            assert(t[i] == rs[i + 1]);
            assert(t[j] == rs[j + 1]);
        }
        lemma_heading_over_least(b, t, level, text);
        let h = heading_in(b, rs[0].0, rs[0].1, level, text);
        if h != -1 {
            assert(heading_at(b, rs, h, level, text)) by {
                assert(rs[0].0 <= h < rs[0].1);
            }
            assert forall|p: int| #[trigger] heading_at(b, rs, p, level, text) implies h <= p by {
                let i = choose|i: int|
                    0 <= i < rs.len() && (#[trigger] rs[i]).0 <= p < rs[i].1 && starts_line(b, p) && heading_line_at(
                        b,
                        p,
                        rs[i].1,
                        level,
                        text,
                    );
                if i > 0 {
                    assert(rs[0].1 <= rs[i].0);
                }
            }
        } else {
            let r = heading_over(b, t, level, text);
            if r != -1 {
                let k = choose|k: int|
                    0 <= k < t.len() && (#[trigger] t[k]).0 <= r < t[k].1 && starts_line(b, r) && heading_line_at(
                        b,
                        r,
                        t[k].1,
                        level,
                        text,
                    );
                assert(rs[k + 1] == t[k]);
                assert(heading_at(b, rs, r, level, text));
            }
            assert forall|p: int| #[trigger] heading_at(b, rs, p, level, text) implies r != -1 && r <= p by {
                let i = choose|i: int|
                    0 <= i < rs.len() && (#[trigger] rs[i]).0 <= p < rs[i].1 && starts_line(b, p) && heading_line_at(
                        b,
                        p,
                        rs[i].1,
                        level,
                        text,
                    );
                if i == 0 {
                    assert(heading_line_at(b, p, rs[0].1, level, text));
                } else {
                    assert(t[i - 1] == rs[i]);
                    assert(heading_at(b, t, p, level, text));
                }
            }
        }
    }
}

/// The offset found for a heading is the least one: it starts a line outside
/// fenced code that is a heading of `level` with display text `text`, and no
/// such line starts before it; no offset is found exactly when there is no
/// such line.
pub proof fn lemma_heading_offset_is_least(b: Seq<u8>, level: int, text: Seq<u8>)
    requires
        valid_utf8(b),
    ensures
        heading_offset(b, level, text) != -1 ==> heading_at(b, non_fence(b), heading_offset(b, level, text), level, text),
        forall|p: int|
            #[trigger] heading_at(b, non_fence(b), p, level, text) ==> heading_offset(b, level, text) != -1
                && heading_offset(b, level, text) <= p,
{
    lemma_non_fence_ok(b);
    lemma_non_fence_lines(b);
    lemma_heading_over_least(b, non_fence(b), level, text);
}

/// Returns the byte offset in `source` of the first heading line, outside
/// fenced code, whose level is `level` and whose display text is `text`.
pub fn byte_offset_for_heading(source: &str, level: u8, text: &str) -> (r: Option<usize>)
    ensures
        match r {
            Some(k) => heading_offset(source.spec_bytes(), level as int, text.spec_bytes()) == k as int,
            None => heading_offset(source.spec_bytes(), level as int, text.spec_bytes()) == -1,
        },
{
    let b = source.as_bytes();
    proof {
        lemma_str_valid(source);
        lemma_non_fence_ok(b@);
    }
    let ranges = non_fence_ranges(source);
    let ghost rs = ranges_view(ranges@);
    let mut i: usize = 0;
    assert(rs.skip(0) =~= rs);
    while i < ranges.len()
        invariant
            0 <= i <= ranges@.len(),
            b@ == source.spec_bytes(),
            valid_utf8(b@),
            rs == ranges_view(ranges@),
            ranges_ok(b@, rs),
            heading_offset(b@, level as int, text.spec_bytes()) == heading_over(b@, rs.skip(i as int), level as int, text.spec_bytes()),
        decreases ranges@.len() - i,
    {
        let lo = ranges[i].start;
        let hi = ranges[i].end;
        assert(rs[i as int] == (lo as int, hi as int));
        assert(rs.skip(i as int)[0] == rs[i as int]);
        assert(rs.skip(i as int).drop_first() =~= rs.skip(i + 1));
        let mut pos = lo;
        while pos < hi
            invariant
                lo <= pos <= hi <= b@.len(),
                b@ == source.spec_bytes(),
                valid_utf8(b@),
                is_char_boundary(b@, pos as int),
                is_char_boundary(b@, hi as int),
                heading_in(b@, lo as int, hi as int, level as int, text.spec_bytes()) == heading_in(
                    b@,
                    pos as int,
                    hi as int,
                    level as int,
                    text.spec_bytes(),
                ),
                0 <= i < rs.len(),
                rs.skip(i as int)[0] == (lo as int, hi as int),
                heading_offset(b@, level as int, text.spec_bytes()) == heading_over(b@, rs.skip(i as int), level as int, text.spec_bytes()),
            decreases hi - pos,
        {
            let le = line_end_exec(b, pos);
            let e = if le <= hi {
                le
            } else {
                hi
            };
            proof {
                crate::text::lemma_line_end_boundary(b@, pos as int);
            }
            let mut t = e;
            if t > pos && b[t - 1] == 10 {
                t = t - 1;
            }
            let ghost e1 = t;
            while t > pos && b[t - 1] == 13
                invariant
                    pos <= t <= e1 <= e <= b@.len(),
                    e1 as int - rrun_cr(b@, pos as int, e1 as int) == t as int - rrun_cr(b@, pos as int, t as int),
                decreases t - pos,
            {
                t = t - 1;
            }
            proof {
                lemma_line_end(b@, pos as int);
                lemma_rrun_cr(b@, pos as int, e1 as int);
                assert(rrun_cr(b@, pos as int, t as int) == 0);
                assert(t == line_text_end(b@, pos as int, e as int));
                if t < e {
                    if t < e1 {
                        assert(b@[t as int] == 13);
                    } else {
                        assert(b@[t as int] == 10);
                    }
                    lemma_after_ascii(b@, t as int);
                }
            }
            let lvl = run_len_exec(b, pos, t, 0x23);
            if 1 <= lvl && lvl <= 6 && pos + lvl < t && b[pos + lvl] == 0x20 && lvl == level as usize {
                let (x, y) = display_range(source, pos, t);
                let shown = crate::text::str_slice(source, x, y);
                if crate::text::str_eq(shown, text) {
                    return Some(pos);
                }
            }
            proof {
                if e < hi {
                    lemma_after_ascii(b@, e - 1);
                }
            }
            pos = e;
        }
        i = i + 1;
    }
    None
}

} // verus!
