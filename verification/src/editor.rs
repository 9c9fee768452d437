//! Editor helpers: wiki-link completion, cursor conversions, note-link
//! extraction, the per-block preview cache and Markdown block segmentation.
use vstd::prelude::*;
use vstd::utf8::*;
use vstd::string::*;
use std::ops::Range;
use crate::text::{
    utf8_bytes, find_within, rfind_before, line_end, trim_lo, trim_hi, skip_ws, run_len, matches_at, lemma_str_valid, lemma_after_ascii, lemma_find_within,
    lemma_rfind_props, find_within_exec, rfind_pat, str_slice, owned_slice, push_str,
};
use crate::analysis::dedup_first;
use crate::search::{lowercase, contains_bytes, to_lower};
use crate::path::strings_bytes;
use crate::wiki_link_popup::{WikiLinkPopup, next_index, prev_index};

verus! {

broadcast use vstd::seq::group_seq_axioms;

/// The custom URI scheme for in-app links between notes.
pub const NOTE_LINK_SCHEME: &'static str = "sideromelane://note/";

pub open spec fn scheme_bytes() -> Seq<u8> {
    seq![
        0x73u8, 0x69, 0x64, 0x65, 0x72, 0x6F, 0x6D, 0x65, 0x6C, 0x61, 0x6E, 0x65, 0x3A, 0x2F,
        0x2F, 0x6E, 0x6F, 0x74, 0x65, 0x2F,
    ]
}

pub(crate) proof fn lemma_scheme()
    ensures
        NOTE_LINK_SCHEME.spec_bytes() == scheme_bytes(),
        forall|i: int| 0 <= i < scheme_bytes().len() ==> scheme_bytes()[i] < 0x80,
{
    reveal_strlit("sideromelane://note/");
    crate::text::lemma_ascii_str(NOTE_LINK_SCHEME);
    assert(NOTE_LINK_SCHEME.spec_bytes() =~= scheme_bytes());
}

// ---------------------------------------------------------------------------
// Note links in rendered text
// ---------------------------------------------------------------------------
/// Bytes that end a note link URL.
pub open spec fn is_url_stop(c: u8) -> bool {
    c == 0x29 || c == 0x20 || c == 0x0A || c == 0x0D || c == 0x09 || c == 0x22 || c == 0x3C || c
        == 0x3E
}

/// End of the URL starting at `p`: the first stop byte, or the end.
pub open spec fn url_end(b: Seq<u8>, p: int) -> int
    decreases b.len() - p,
{
    if p < 0 || p >= b.len() || is_url_stop(b[p]) {
        p
    } else {
        url_end(b, p + 1)
    }
}

pub proof fn lemma_url_end(b: Seq<u8>, p: int)
    requires
        0 <= p <= b.len(),
    ensures
        p <= url_end(b, p) <= b.len(),
        url_end(b, p) < b.len() ==> is_url_stop(b[url_end(b, p)]),
    decreases b.len() - p,
{
    if p < b.len() && !is_url_stop(b[p]) {
        lemma_url_end(b, p + 1);
    }
}

/// The note link URLs of `b` from `cur`, in order, with repetitions.
pub open spec fn link_scan(b: Seq<u8>, cur: int) -> Seq<Seq<u8>>
    decreases b.len() - cur,
{
    let start = find_within(b, cur, b.len() as int, scheme_bytes());
    if cur < 0 || start == -1 {
        Seq::empty()
    } else {
        proof {
            lemma_find_within(b, cur, b.len() as int, scheme_bytes());
            lemma_url_end(b, start + scheme_bytes().len());
        }
        seq![b.subrange(start, url_end(b, start + scheme_bytes().len()))] + link_scan(
            b,
            url_end(b, start + scheme_bytes().len()),
        )
    }
}

/// Returns every note link URL of `text`, in order of first appearance.
pub fn extract_note_link_targets(text: &str) -> (r: Vec<String>)
    ensures
        strings_bytes(r@) == dedup_first(link_scan(text.spec_bytes(), 0)),
{
    let b = text.as_bytes();
    let scheme = NOTE_LINK_SCHEME.as_bytes();
    proof {
        lemma_scheme();
        lemma_str_valid(text);
    }
    let ghost all = link_scan(b@, 0);
    let ghost mut done: Seq<Seq<u8>> = Seq::empty();
    let mut out: Vec<String> = Vec::new();
    let mut cur: usize = 0;
    loop
        invariant
            cur <= b@.len(),
            b@ == text.spec_bytes(),
            valid_utf8(b@),
            scheme@ == scheme_bytes(),
            all == link_scan(b@, 0),
            all == done + link_scan(b@, cur as int),
            strings_bytes(out@) == dedup_first(done),
        decreases b@.len() - cur,
    {
        let start = match find_within_exec(b, cur, b.len(), scheme) {
            None => {
                assert(done + link_scan(b@, cur as int) =~= done);
                return out;
            },
            Some(s) => s,
        };
        proof {
            lemma_find_within(b@, cur as int, b@.len() as int, scheme_bytes());
            lemma_scheme();
        }
        let after = start + scheme.len();
        let mut e = after;
        proof {
            lemma_url_end(b@, after as int);
        }
        while e < b.len() && !(b[e] == 0x29 || b[e] == 0x20 || b[e] == 0x0A || b[e] == 0x0D
            || b[e] == 0x09 || b[e] == 0x22 || b[e] == 0x3C || b[e] == 0x3E)
            invariant
                after <= e <= b@.len(),
                url_end(b@, after as int) == url_end(b@, e as int),
            decreases b@.len() - e,
        {
            e = e + 1;
        }
        proof {
            assert(b@.subrange(start as int, after as int) == scheme_bytes());
            assert(b@[start as int] == scheme_bytes()[0]);
            lemma_after_ascii(b@, start as int);
            if e < b@.len() {
                lemma_after_ascii(b@, e as int);
            } else {
                is_char_boundary_start_end_of_seq(b@);
            }
            crate::text::lemma_boundary_at(b@, start as int);
        }
        let ghost url = b@.subrange(start as int, e as int);
        let url_str = str_slice(text, start, e);
        let mut seen = false;
        let mut k: usize = 0;
        while k < out.len()
            invariant
                0 <= k <= out@.len(),
                url_str.spec_bytes() == url,
                !seen ==> forall|j: int| 0 <= j < k ==> strings_bytes(out@)[j] != url,
                seen ==> strings_bytes(out@).contains(url),
            decreases out@.len() - k,
        {
            if !seen && crate::text::bytes_eq(out[k].as_str().as_bytes(), url_str.as_bytes()) {
                seen = true;
                assert(strings_bytes(out@)[k as int] == url);
            }
            k = k + 1;
        }
        if !seen {
            let piece = owned_slice(text, start, e);
            let ghost before = out@;
            out.push(piece);
            proof {
                crate::path::lemma_strings_bytes_push(before, piece);
            }
        }
        proof {
            assert(done.push(url).drop_last() =~= done);
            assert(done + link_scan(b@, cur as int) =~= done.push(url) + link_scan(b@, e as int));
            done = done.push(url);
        }
        cur = e;
    }
}

// ---------------------------------------------------------------------------
// Wiki-link completion
// ---------------------------------------------------------------------------
pub open spec fn open_pat() -> Seq<u8> {
    seq![0x5Bu8, 0x5B]
}

pub open spec fn close_pat() -> Seq<u8> {
    seq![0x5Du8, 0x5D]
}

/// The text typed after the last `[[` before `cursor`, when that link is
/// still open; none when `cursor` is not a character boundary.
pub open spec fn wiki_prefix(b: Seq<u8>, cursor: int) -> Option<(int, int)> {
    if cursor > b.len() || !is_char_boundary(b, cursor) {
        None
    } else {
        let o = rfind_before(b, cursor, open_pat());
        if o == -1 {
            None
        } else if find_within(b, o + 2, cursor, close_pat()) != -1 {
            None
        } else {
            Some((o + 2, cursor))
        }
    }
}

/// Returns the partial note name typed inside an unclosed `[[` before the cursor.
pub fn find_wiki_link_prefix(source: &str, cursor_byte: usize) -> (r: Option<&str>)
    ensures
        match r {
            Some(p) => wiki_prefix(source.spec_bytes(), cursor_byte as int) matches Some(t)
                && p.spec_bytes() == source.spec_bytes().subrange(t.0, t.1),
            None => wiki_prefix(source.spec_bytes(), cursor_byte as int) is None,
        },
{
    let b = source.as_bytes();
    if cursor_byte > b.len() || !source.is_char_boundary(cursor_byte) {
        return None;
    }
    let pat: [u8; 2] = [0x5B, 0x5B];
    let cpat: [u8; 2] = [0x5D, 0x5D];
    assert(pat@ =~= open_pat());
    assert(cpat@ =~= close_pat());
    let o = match rfind_pat(b, cursor_byte, pat.as_slice()) {
        None => {
            return None;
        },
        Some(o) => o,
    };
    proof {
        lemma_rfind_props(b@, cursor_byte as int, open_pat());
        lemma_str_valid(source);
        assert(b@.subrange(o as int, o + 2)[1] == b@[o + 1]);
        lemma_after_ascii(b@, o + 1);
    }
    if find_within_exec(b, o + 2, cursor_byte, cpat.as_slice()).is_some() {
        return None;
    }
    Some(str_slice(source, o + 2, cursor_byte))
}

/// The stems of `ss` whose lower-cased form contains `p` (already lower-cased).
pub open spec fn matching_stems(ss: Seq<Seq<u8>>, p: Seq<u8>) -> Seq<Seq<u8>>
    decreases ss.len(),
{
    if ss.len() == 0 {
        Seq::empty()
    } else if contains_bytes(lowercase(ss.last()), p) {
        matching_stems(ss.drop_last(), p).push(ss.last())
    } else {
        matching_stems(ss.drop_last(), p)
    }
}

/// Whether `p` occurs in `h` at some offset.
pub open spec fn occurs_in(h: Seq<u8>, p: Seq<u8>) -> bool {
    exists|i: int| 0 <= i && i + p.len() <= h.len() && #[trigger] h.subrange(i, i + p.len()) == p
}

proof fn lemma_contains_bytes_occurs(h: Seq<u8>, p: Seq<u8>)
    ensures
        contains_bytes(h, p) <==> occurs_in(h, p),
{
    crate::text::lemma_find_within(h, 0, h.len() as int, p);
    if occurs_in(h, p) {
        let i = choose|i: int| 0 <= i && i + p.len() <= h.len() && #[trigger] h.subrange(i, i + p.len()) == p;
        assert(crate::text::matches_at(h, i, p));
    }
    if contains_bytes(h, p) {
        let k = crate::text::find_within(h, 0, h.len() as int, p);
        assert(h.subrange(k, k + p.len()) == p);
    }
}

/// The stems offered are those whose lower-cased form contains the typed
/// text anywhere, not only at its start, in their order: every offered stem
/// is one of `ss` and contains it, and every stem of `ss` that contains it
/// is offered.
pub proof fn lemma_completion_matches_anywhere(ss: Seq<Seq<u8>>, p: Seq<u8>)
    ensures
        forall|x: Seq<u8>| #[trigger] matching_stems(ss, p).contains(x) ==> ss.contains(x) && occurs_in(lowercase(x), p),
        forall|j: int| 0 <= j < ss.len() && occurs_in(lowercase(#[trigger] ss[j]), p) ==> matching_stems(ss, p).contains(ss[j]),
    decreases ss.len(),
{
    if ss.len() > 0 {
        let t = ss.drop_last();
        lemma_completion_matches_anywhere(t, p);
        lemma_contains_bytes_occurs(lowercase(ss.last()), p);
        let m = matching_stems(ss, p);
        let mt = matching_stems(t, p);
        assert forall|x: Seq<u8>| #[trigger] m.contains(x) implies ss.contains(x) && occurs_in(lowercase(x), p) by {
            let k = choose|k: int| 0 <= k < m.len() && m[k] == x;
            if k < mt.len() && (m == mt || m == mt.push(ss.last())) {
                assert(m[k] == mt[k]);
                assert(mt.contains(x));
                let q = choose|q: int| 0 <= q < t.len() && t[q] == x;
                assert(ss[q] == x);
            } else {
                assert(x == ss.last());
                assert(ss[ss.len() - 1] == x);
            }
        }
        assert forall|j: int| 0 <= j < ss.len() && occurs_in(lowercase(#[trigger] ss[j]), p) implies m.contains(ss[j]) by {
            if j < ss.len() - 1 {
                assert(t[j] == ss[j]);
                assert(mt.contains(t[j]));
                let k = choose|k: int| 0 <= k < mt.len() && mt[k] == t[j];
                if contains_bytes(lowercase(ss.last()), p) {
                    assert(m[k] == mt[k]);
                }
            } else {
                assert(m[m.len() - 1] == ss.last());
            }
        }
    }
}

/// At most the first ten items.
pub open spec fn first_ten(s: Seq<Seq<u8>>) -> Seq<Seq<u8>> {
    if s.len() <= 10 {
        s
    } else {
        s.take(10)
    }
}

pub open spec fn strs_bytes(v: Seq<&str>) -> Seq<Seq<u8>> {
    v.map_values(|s: &str| s.spec_bytes())
}

/// Returns up to ten stems that contain `prefix`, ignoring case, in order.
pub fn complete_note_links<'a>(stems: &[&'a str], prefix: &str) -> (r: Vec<&'a str>)
    ensures
        strs_bytes(r@) == first_ten(matching_stems(strs_bytes(stems@), lowercase(prefix.spec_bytes()))),
{
    let lower = to_lower(prefix);
    let ghost ss = strs_bytes(stems@);
    let ghost lp = lowercase(prefix.spec_bytes());
    let mut out: Vec<&'a str> = Vec::new();
    let mut i: usize = 0;
    assert(ss.take(0) =~= Seq::<Seq<u8>>::empty());
    assert(strs_bytes(out@) =~= Seq::<Seq<u8>>::empty());
    while i < stems.len() && out.len() < 10
        invariant
            0 <= i <= stems@.len(),
            ss == strs_bytes(stems@),
            lp == lowercase(prefix.spec_bytes()),
            utf8_bytes(lower@) == lp,
            strs_bytes(out@) == matching_stems(ss.take(i as int), lp),
            out@.len() <= 10,
        decreases stems@.len() - i,
    {
        let l = to_lower(stems[i]);
        let hit = crate::search::contains_exec_pub(l.as_str(), lower.as_str());
        assert(ss.take(i + 1).drop_last() =~= ss.take(i as int));
        assert(ss.take(i + 1).last() == stems@[i as int].spec_bytes());
        if hit {
            let ghost before = out@;
            out.push(stems[i]);
            assert(strs_bytes(out@) =~= strs_bytes(before).push(stems@[i as int].spec_bytes()));
        }
        i = i + 1;
    }
    proof {
        lemma_first_ten_prefix(ss, lp, i as int);
    }
    out
}

proof fn lemma_matching_prefix(ss: Seq<Seq<u8>>, p: Seq<u8>, i: int, j: int)
    requires
        0 <= i <= j <= ss.len(),
    ensures
        matching_stems(ss.take(i), p).len() <= matching_stems(ss.take(j), p).len(),
        matching_stems(ss.take(j), p).take(matching_stems(ss.take(i), p).len() as int) == matching_stems(
            ss.take(i),
            p,
        ),
    decreases j - i,
{
    if i < j {
        lemma_matching_prefix(ss, p, i, j - 1);
        assert(ss.take(j).drop_last() =~= ss.take(j - 1));
        let a = matching_stems(ss.take(i), p);
        let m = matching_stems(ss.take(j - 1), p);
        let n = matching_stems(ss.take(j), p);
        if n.len() > m.len() {
            assert(n == m.push(ss.take(j).last()));
            assert(n.take(a.len() as int) =~= m.take(a.len() as int));
        }
    } else {
        assert(matching_stems(ss.take(j), p).take(matching_stems(ss.take(j), p).len() as int) =~= matching_stems(ss.take(j), p));
    }
}

proof fn lemma_first_ten_prefix(ss: Seq<Seq<u8>>, p: Seq<u8>, i: int)
    requires
        0 <= i <= ss.len(),
        i == ss.len() || matching_stems(ss.take(i), p).len() >= 10,
        matching_stems(ss.take(i), p).len() <= 10,
    ensures
        matching_stems(ss.take(i), p) == first_ten(matching_stems(ss, p)),
{
    assert(ss.take(ss.len() as int) =~= ss);
    lemma_matching_prefix(ss, p, i, ss.len() as int);
    if i < ss.len() {
        assert(matching_stems(ss.take(i), p).len() == 10);
    }
}


// ---------------------------------------------------------------------------
// Cursor conversions and completion splicing
// ---------------------------------------------------------------------------
/// Offset of the `k`-th character start at or after `p` (a byte that is not
/// a continuation byte), or the length when there are fewer.
pub open spec fn nth_char_start(b: Seq<u8>, p: int, k: int) -> int
    decreases b.len() - p,
{
    if p < 0 || p >= b.len() {
        b.len() as int
    } else if !is_continuation_byte(b[p]) {
        if k <= 0 {
            p
        } else {
            nth_char_start(b, p + 1, k - 1)
        }
    } else {
        nth_char_start(b, p + 1, k)
    }
}

/// Number of characters of `b`: its bytes that are not continuation bytes.
pub open spec fn char_count(b: Seq<u8>) -> int
    decreases b.len(),
{
    if b.len() == 0 {
        0
    } else {
        char_count(b.drop_last()) + if is_continuation_byte(b.last()) {
            0int
        } else {
            1int
        }
    }
}

/// Converts a character index to a byte offset; indices past the end give
/// the length.
pub fn char_idx_to_byte(s: &str, char_idx: usize) -> (r: usize)
    ensures
        r as int == nth_char_start(s.spec_bytes(), 0, char_idx as int),
{
    let b = s.as_bytes();
    let mut p: usize = 0;
    let mut k: usize = char_idx;
    while p < b.len()
        invariant
            p <= b@.len(),
            b@ == s.spec_bytes(),
            nth_char_start(b@, 0, char_idx as int) == nth_char_start(b@, p as int, k as int),
        decreases b@.len() - p,
    {
        let c = b[p];
        let cont = 0x80 <= c && c <= 0xBF;
        if !cont {
            if k == 0 {
                return p;
            }
            k = k - 1;
        }
        p = p + 1;
    }
    b.len()
}

fn count_chars(b: &[u8], lo: usize, hi: usize) -> (r: usize)
    requires
        lo <= hi <= b@.len(),
    ensures
        r as int == char_count(b@.subrange(lo as int, hi as int)),
        r <= hi - lo,
{
    let mut n: usize = 0;
    let mut p = lo;
    assert(b@.subrange(lo as int, lo as int) =~= Seq::<u8>::empty());
    while p < hi
        invariant
            lo <= p <= hi <= b@.len(),
            n as int == char_count(b@.subrange(lo as int, p as int)),
            n <= p - lo,
        decreases hi - p,
    {
        let c = b[p];
        let cont = 0x80 <= c && c <= 0xBF;
        assert(b@.subrange(lo as int, p + 1).drop_last() =~= b@.subrange(lo as int, p as int));
        if !cont {
            n = n + 1;
        }
        p = p + 1;
    }
    n
}

/// The text `[[stem]]`.
pub open spec fn completion_bytes(stem: Seq<u8>) -> Seq<u8> {
    open_pat() + stem + close_pat()
}

/// Once a completion `[[stem]]` is spliced in, no link is open at the
/// cursor placed after its `]]`: no completion is offered there.
pub proof fn lemma_completion_closes_link(pre: Seq<u8>, stem: Seq<u8>, post: Seq<u8>)
    ensures
        wiki_prefix(pre + completion_bytes(stem) + post, (pre.len() + completion_bytes(stem).len()) as int) is None,
{
    let b = pre + completion_bytes(stem) + post;
    let n = pre.len() as int;
    let c = n + stem.len() + 4;
    assert(completion_bytes(stem).len() == stem.len() + 4);
    if c <= b.len() && is_char_boundary(b, c) {
        assert(b[n] == 0x5Bu8 && b[n + 1] == 0x5Bu8);
        assert(b[c - 2] == 0x5Du8 && b[c - 1] == 0x5Du8);
        assert(b.subrange(n, n + 2) =~= open_pat());
        assert(matches_at(b, n, open_pat()));
        crate::text::lemma_rfind_props(b, c, open_pat());
        let o = rfind_before(b, c, open_pat());
        assert(o != -1);
        assert(o >= n);
        assert(b.subrange(o, o + 2)[1] == b[o + 1]);
        assert(o + 2 <= c - 2);
        assert(b.subrange(c - 2, c) =~= close_pat());
        assert(matches_at(b, c - 2, close_pat()));
        crate::text::lemma_find_within(b, o + 2, c, close_pat());
        assert(find_within(b, o + 2, c, close_pat()) != -1);
    }
}

/// Replaces the `[[prefix` span that ends at `cursor_byte` with `[[stem]]`.
/// Returns the character position just after the inserted `]]`, or `None`
/// (leaving `source` unchanged) when no `[[` precedes the cursor.
pub fn splice_wiki_completion(source: &mut String, cursor_byte: usize, stem: &str) -> (r: Option<usize>)
    requires
        cursor_byte <= utf8_bytes(old(source)@).len(),
        is_char_boundary(utf8_bytes(old(source)@), cursor_byte as int),
    ensures
        ({
            let b = utf8_bytes(old(source)@);
            let o = rfind_before(b, cursor_byte as int, open_pat());
            match r {
                None => o == -1 && final(source)@ == old(source)@,
                Some(c) => o != -1 && utf8_bytes(final(source)@) == b.subrange(0, o) + completion_bytes(
                    stem.spec_bytes(),
                ) + b.subrange(cursor_byte as int, b.len() as int) && c as int == char_count(
                    b.subrange(0, o),
                ) + char_count(completion_bytes(stem.spec_bytes())),
            }
        }),
{
    let src = source.as_str();
    let b = src.as_bytes();
    proof {
        lemma_str_valid(src);
    }
    let pat: [u8; 2] = [0x5B, 0x5B];
    assert(pat@ =~= open_pat());
    let o = match rfind_pat(b, cursor_byte, pat.as_slice()) {
        None => {
            return None;
        },
        Some(o) => o,
    };
    proof {
        lemma_rfind_props(b@, cursor_byte as int, open_pat());
        assert(b@.subrange(o as int, o + 2)[0] == b@[o as int]);
        crate::text::lemma_boundary_at(b@, o as int);
    }
    let mut out = String::new();
    proof {
        assert(utf8_bytes(out@) =~= Seq::<u8>::empty());
    }
    push_str(&mut out, str_slice(src, 0, o));
    let open_s = "[[";
    let close_s = "]]";
    proof {
        reveal_strlit("[[");
        reveal_strlit("]]");
        crate::text::lemma_ascii_str(open_s);
        crate::text::lemma_ascii_str(close_s);
        assert(open_s.spec_bytes() =~= open_pat());
        assert(close_s.spec_bytes() =~= close_pat());
    }
    push_str(&mut out, open_s);
    push_str(&mut out, stem);
    push_str(&mut out, close_s);
    let ghost comp_end = utf8_bytes(out@).len();
    push_str(&mut out, str_slice(src, cursor_byte, b.len()));
    let head = count_chars(b, 0, o);
    let ghost comp = completion_bytes(stem.spec_bytes());
    let ob = out.as_str().as_bytes();
    proof {
        assert(utf8_bytes(out@) =~= b@.subrange(0, o as int) + comp + b@.subrange(cursor_byte as int, b@.len() as int));
        assert(ob@ == utf8_bytes(out@));
        assert(ob@.len() == o + 4 + stem.spec_bytes().len() + (b@.len() - cursor_byte));
        assert(ob@.subrange(o as int, o + 4 + stem.spec_bytes().len()) =~= comp);
    }
    let sl = stem.as_bytes().len();
    assert(sl == stem.spec_bytes().len());
    let ol = ob.len();
    assert(o + 4 + sl <= ol);
    let tail = count_chars(ob, o, o + 4 + sl);
    *source = out;
    Some(head + tail)
}


// ---------------------------------------------------------------------------
// The completion popup of the raw editor
// ---------------------------------------------------------------------------
/// Popup navigation keys pressed during a frame.
#[derive(Debug, Clone, Copy, Default, PartialEq, Eq, Structural)]
pub struct PopupKeys {
    /// Enter: accept the highlighted stem.
    pub enter: bool,
    /// Escape: close the popup.
    pub escape: bool,
    /// Arrow down: highlight the next stem.
    pub down: bool,
    /// Arrow up: highlight the previous stem.
    pub up: bool,
}

/// The selection after the popup's items change from `items` to `new_items`.
pub open spec fn after_set(items: Seq<Seq<u8>>, sel: int, new_items: Seq<Seq<u8>>) -> int {
    if new_items == items {
        sel
    } else {
        0
    }
}

/// The stems offered for the partial name `b[x..y]`.
pub open spec fn offered(b: Seq<u8>, x: int, y: int, ss: Seq<Seq<u8>>) -> Seq<Seq<u8>> {
    first_ten(matching_stems(ss, lowercase(b.subrange(x, y))))
}

/// The highlighted position after the arrow keys, from `s0` among `n` stems.
pub open spec fn after_arrows(s0: int, n: int, keys: PopupKeys) -> int {
    let s1 = if keys.down && n > 0 {
        next_index(s0, n)
    } else {
        s0
    };
    if keys.up && n > 0 {
        prev_index(s1, n)
    } else {
        s1
    }
}

/// One pass of the completion popup after the text edit ran: offers the
/// stems matching the partial wiki link before the cursor (none when the
/// cursor is unknown or not inside an open `[[`), then applies the keys:
/// Escape closes the popup, the arrows move the highlight, and Enter splices
/// the highlighted stem in as `[[stem]]`, closes the popup and returns the
/// character position after the inserted `]]`.
pub fn raw_popup_pass(
    source: &mut String,
    cursor_char: Option<usize>,
    stems: &[&str],
    popup: &mut WikiLinkPopup,
    keys: PopupKeys,
) -> (r: Option<usize>)
    ensures
        ({
            let b = utf8_bytes(old(source)@);
            let ss = strs_bytes(stems@);
            let its = old(popup).items_v();
            let sel = old(popup).sel();
            let wp = match cursor_char {
                Some(c) => wiki_prefix(b, nth_char_start(b, 0, c as int)),
                None => None,
            };
            match wp {
                None => {
                    &&& final(popup).items_v() == Seq::<Seq<u8>>::empty()
                    &&& final(popup).sel() == after_set(its, sel, Seq::empty())
                    &&& final(source)@ == old(source)@
                    &&& r is None
                },
                Some(xy) => {
                    let items = offered(b, xy.0, xy.1, ss);
                    let s0 = after_set(its, sel, items);
                    let s2 = after_arrows(s0, items.len() as int, keys);
                    if keys.escape {
                        &&& final(popup).items_v() == Seq::<Seq<u8>>::empty()
                        &&& final(popup).sel() == after_set(items, s0, Seq::empty())
                        &&& final(source)@ == old(source)@
                        &&& r is None
                    } else if keys.enter && items.len() > 0 {
                        let o = xy.0 - 2;
                        &&& final(popup).items_v() == Seq::<Seq<u8>>::empty()
                        &&& final(popup).sel() == after_set(items, s2, Seq::empty())
                        &&& utf8_bytes(final(source)@) == b.subrange(0, o) + completion_bytes(items[s2])
                            + b.subrange(xy.1, b.len() as int)
                        &&& r == Some((char_count(b.subrange(0, o)) + char_count(completion_bytes(items[s2]))) as usize)
                    } else {
                        &&& final(popup).items_v() == items
                        &&& final(popup).sel() == s2
                        &&& final(source)@ == old(source)@
                        &&& r is None
                    }
                },
            }
        }),
{
    let c = match cursor_char {
        None => {
            popup.set_items(Vec::new());
            assert(strings_bytes(Seq::<String>::empty()) =~= Seq::<Seq<u8>>::empty());
            return None;
        },
        Some(c) => c,
    };
    let byte = char_idx_to_byte(source.as_str(), c);
    let prefix: String = match find_wiki_link_prefix(source.as_str(), byte) {
        None => {
            popup.set_items(Vec::new());
            assert(strings_bytes(Seq::<String>::empty()) =~= Seq::<Seq<u8>>::empty());
            return None;
        },
        Some(p) => p.to_owned(),
    };
    let filtered = complete_note_links(stems, prefix.as_str());
    let mut items: Vec<String> = Vec::new();
    let mut i: usize = 0;
    while i < filtered.len()
        invariant
            0 <= i <= filtered@.len(),
            strings_bytes(items@) == strs_bytes(filtered@).take(i as int),
        decreases filtered@.len() - i,
    {
        let ghost before = items@;
        let item = filtered[i].to_owned();
        items.push(item);
        proof {
            crate::path::lemma_strings_bytes_push(before, item);
            assert(strs_bytes(filtered@).take(i + 1) =~= strs_bytes(filtered@).take(i as int).push(
                filtered@[i as int].spec_bytes(),
            ));
        }
        i = i + 1;
    }
    assert(strs_bytes(filtered@).take(i as int) =~= strs_bytes(filtered@));
    popup.set_items(items);
    if keys.escape {
        popup.set_items(Vec::new());
        assert(strings_bytes(Seq::<String>::empty()) =~= Seq::<Seq<u8>>::empty());
        return None;
    }
    if keys.down {
        popup.select_next();
    }
    if keys.up {
        popup.select_prev();
    }
    if keys.enter {
        match popup.selected_item() {
            Some(stem) => {
                let stem = stem.to_owned();
                let r = splice_wiki_completion(source, byte, stem.as_str());
                popup.set_items(Vec::new());
                assert(strings_bytes(Seq::<String>::empty()) =~= Seq::<Seq<u8>>::empty());
                return r;
            },
            None => {},
        }
    }
    None
}

// ---------------------------------------------------------------------------
// The per-block preview cache
// ---------------------------------------------------------------------------
/// The output of the live-preview pass for one block.
#[derive(Debug)]
pub struct CachedBlockPreview {
    /// The block text with wiki links rewritten.
    pub transformed: String,
    /// The note link URLs that occur in `transformed`.
    pub link_targets: Vec<String>,
}

impl View for CachedBlockPreview {
    type V = (Seq<u8>, Seq<Seq<u8>>);

    open spec fn view(&self) -> (Seq<u8>, Seq<Seq<u8>>) {
        (utf8_bytes(self.transformed@), strings_bytes(self.link_targets@))
    }
}

impl Clone for CachedBlockPreview {
    fn clone(&self) -> (r: CachedBlockPreview)
        ensures
            r@ == self@,
    {
        let mut targets: Vec<String> = Vec::new();
        let mut i: usize = 0;
        while i < self.link_targets.len()
            invariant
                0 <= i <= self.link_targets@.len(),
                strings_bytes(targets@) == strings_bytes(self.link_targets@).take(i as int),
            decreases self.link_targets@.len() - i,
        {
            let t = self.link_targets[i].clone();
            let ghost before = targets@;
            targets.push(t);
            proof {
                crate::path::lemma_strings_bytes_push(before, t);
                assert(strings_bytes(self.link_targets@).take(i + 1) =~= strings_bytes(self.link_targets@).take(i as int).push(utf8_bytes(t@)));
            }
            i = i + 1;
        }
        assert(strings_bytes(self.link_targets@).take(i as int) =~= strings_bytes(self.link_targets@));
        CachedBlockPreview { transformed: self.transformed.clone(), link_targets: targets }
    }
}

/// Cached previews keyed by `(block byte range, block text hash)`; keys are unique.
pub struct BlockPreviewCache {
    entries: Vec<((usize, usize, u64), CachedBlockPreview)>,
}

pub open spec fn key_of(k: (Range<usize>, u64)) -> (usize, usize, u64) {
    (k.0.start, k.0.end, k.1)
}

/// Position of the key `k` in `ks`, or `-1`.
pub open spec fn key_index(ks: Seq<(usize, usize, u64)>, k: (usize, usize, u64)) -> int
    decreases ks.len(),
{
    if ks.len() == 0 {
        -1
    } else if key_index(ks.drop_last(), k) != -1 {
        key_index(ks.drop_last(), k)
    } else if ks.last() == k {
        ks.len() - 1
    } else {
        -1
    }
}

proof fn lemma_key_index(ks: Seq<(usize, usize, u64)>, k: (usize, usize, u64))
    ensures
        key_index(ks, k) == -1 <==> !ks.contains(k),
        key_index(ks, k) != -1 ==> 0 <= key_index(ks, k) < ks.len() && ks[key_index(ks, k)] == k,
        key_index(ks, k) != -1 ==> forall|j: int| 0 <= j < key_index(ks, k) ==> ks[j] != k,
    decreases ks.len(),
{
    if ks.len() > 0 {
        let d = ks.drop_last();
        lemma_key_index(d, k);
        if ks.contains(k) {
            let w = choose|w: int| 0 <= w < ks.len() && ks[w] == k;
            if w < ks.len() - 1 {
                assert(d[w] == k);
            }
        }
        if d.contains(k) {
            let w = choose|w: int| 0 <= w < d.len() && d[w] == k;
            assert(ks[w] == k);
        }
        if key_index(ks, k) != -1 {
            assert forall|j: int| 0 <= j < key_index(ks, k) implies ks[j] != k by {
                assert(ks[j] == d[j]);
                if key_index(d, k) == -1 && ks[j] == k {
                    assert(d.contains(k));
                }
            }
        }
    }
}

/// The cache entries `es` as a map: each key to the preview stored with its
/// first entry.
pub open spec fn map_of(es: Seq<((usize, usize, u64), CachedBlockPreview)>) -> Map<
    (usize, usize, u64),
    (Seq<u8>, Seq<Seq<u8>>),
>
    decreases es.len(),
{
    if es.len() == 0 {
        Map::empty()
    } else if map_of(es.drop_last()).contains_key(es.last().0) {
        map_of(es.drop_last())
    } else {
        map_of(es.drop_last()).insert(es.last().0, es.last().1@)
    }
}

/// The keys of the entries `es`, in order.
pub open spec fn entry_keys(es: Seq<((usize, usize, u64), CachedBlockPreview)>) -> Seq<(usize, usize, u64)> {
    es.map_values(|e: ((usize, usize, u64), CachedBlockPreview)| e.0)
}

proof fn lemma_map_of(es: Seq<((usize, usize, u64), CachedBlockPreview)>, k: (usize, usize, u64))
    ensures
        map_of(es).contains_key(k) <==> key_index(entry_keys(es), k) != -1,
        key_index(entry_keys(es), k) != -1 ==> map_of(es)[k] == es[key_index(entry_keys(es), k)].1@,
    decreases es.len(),
{
    if es.len() > 0 {
        let d = es.drop_last();
        lemma_map_of(d, k);
        lemma_map_of(d, es.last().0);
        assert(entry_keys(es).drop_last() =~= entry_keys(d));
        assert(entry_keys(es).last() == es.last().0);
        let kd = key_index(entry_keys(d), k);
        if kd != -1 {
            lemma_key_index(entry_keys(d), k);
            assert(es[kd] == d[kd]);
        }
    }
}

proof fn lemma_map_of_kept(es: Seq<((usize, usize, u64), CachedBlockPreview)>, current: Seq<Range<usize>>)
    ensures
        map_of(kept_entries(es, current)) == map_of(es).restrict(
            Set::new(|k: (usize, usize, u64)| range_listed(current, k)),
        ),
    decreases es.len(),
{
    let listed = Set::new(|k: (usize, usize, u64)| range_listed(current, k));
    if es.len() == 0 {
        assert(map_of(es).restrict(listed) =~= Map::empty());
    } else {
        let d = es.drop_last();
        let l = es.last();
        lemma_map_of_kept(d, current);
        let md = map_of(d);
        let kd = kept_entries(d, current);
        if range_listed(current, l.0) {
            assert(kept_entries(es, current) == kd.push(l));
            assert(kd.push(l).drop_last() =~= kd);
            if md.contains_key(l.0) {
                assert(map_of(kd).contains_key(l.0));
            } else {
                assert(!map_of(kd).contains_key(l.0));
                assert(md.insert(l.0, l.1@).restrict(listed) =~= md.restrict(listed).insert(l.0, l.1@));
            }
        } else {
            assert(kept_entries(es, current) == kd);
            if !md.contains_key(l.0) {
                assert(!listed.contains(l.0));
                assert(md.insert(l.0, l.1@).restrict(listed) =~= md.restrict(listed));
            }
        }
    }
}

proof fn lemma_map_of_update(
    es: Seq<((usize, usize, u64), CachedBlockPreview)>,
    i: int,
    v: CachedBlockPreview,
)
    requires
        0 <= i < es.len(),
        key_index(entry_keys(es), es[i].0) == i,
    ensures
        map_of(es.update(i, (es[i].0, v))) == map_of(es).insert(es[i].0, v@),
    decreases es.len(),
{
    let k = es[i].0;
    let u = es.update(i, (k, v));
    let d = es.drop_last();
    let l = es.last();
    assert(entry_keys(u) =~= entry_keys(es));
    assert(entry_keys(es).drop_last() =~= entry_keys(d));
    if i < es.len() - 1 {
        assert(d[i] == es[i]);
        assert(key_index(entry_keys(d), k) == i);
        lemma_map_of_update(d, i, v);
        let du = d.update(i, (k, v));
        assert(u.drop_last() =~= du);
        assert(u.last() == l);
        lemma_map_of(du, l.0);
        lemma_map_of(d, l.0);
        assert(entry_keys(du) =~= entry_keys(d));
        if map_of(d).contains_key(l.0) {
            assert(map_of(u) == map_of(du));
        } else {
            assert(l.0 != k) by {
                lemma_map_of(d, k);
            }
            assert(map_of(d).insert(k, v@).insert(l.0, l.1@) =~= map_of(d).insert(l.0, l.1@).insert(k, v@));
        }
    } else {
        assert(u.drop_last() =~= d);
        lemma_key_index(entry_keys(d), k);
        assert(key_index(entry_keys(d), k) == -1);
        lemma_map_of(d, k);
        assert(map_of(d).insert(k, l.1@).insert(k, v@) =~= map_of(d).insert(k, v@));
    }
}

impl View for BlockPreviewCache {
    type V = Map<(usize, usize, u64), (Seq<u8>, Seq<Seq<u8>>)>;

    /// Each cached key to its preview.
    closed spec fn view(&self) -> Map<(usize, usize, u64), (Seq<u8>, Seq<Seq<u8>>)> {
        map_of(self.entries@)
    }
}

impl BlockPreviewCache {
    /// The keys, in insertion order.
    pub closed spec fn keys(&self) -> Seq<(usize, usize, u64)> {
        self.entries@.map_values(|e: ((usize, usize, u64), CachedBlockPreview)| e.0)
    }

    /// The values, in key order.
    pub closed spec fn values(&self) -> Seq<CachedBlockPreview> {
        self.entries@.map_values(|e: ((usize, usize, u64), CachedBlockPreview)| e.1)
    }

    /// An empty cache.
    pub fn new() -> (r: BlockPreviewCache)
        ensures
            r.keys().len() == 0,
            r.values().len() == 0,
            r@ == Map::<(usize, usize, u64), (Seq<u8>, Seq<Seq<u8>>)>::empty(),
    {
        BlockPreviewCache { entries: Vec::new() }
    }

    fn find(&self, k: (usize, usize, u64)) -> (r: Option<usize>)
        ensures
            match r {
                Some(i) => key_index(self.keys(), k) == i as int,
                None => key_index(self.keys(), k) == -1,
            },
    {
        proof {
            lemma_key_index(self.keys(), k);
        }
        let mut i: usize = 0;
        while i < self.entries.len()
            invariant
                0 <= i <= self.entries@.len(),
                self.keys().len() == self.entries@.len(),
                forall|j: int| 0 <= j < i ==> self.keys()[j] != k,
            decreases self.entries@.len() - i,
        {
            let e = self.entries[i].0;
            assert(self.keys()[i as int] == e);
            if e.0 == k.0 && e.1 == k.1 && e.2 == k.2 {
                proof {
                    lemma_key_index(self.keys(), k);
                    if key_index(self.keys(), k) != i as int {
                        if key_index(self.keys(), k) == -1 {
                            assert(self.keys().contains(k));
                        }
                    }
                }
                return Some(i);
            }
            i = i + 1;
        }
        proof {
            if self.keys().contains(k) {
                let w = choose|w: int| 0 <= w < self.keys().len() && self.keys()[w] == k;
            }
        }
        None
    }

    /// Whether the cache holds the key.
    pub fn contains_key(&self, key: &(Range<usize>, u64)) -> (r: bool)
        ensures
            r == self.keys().contains(key_of(*key)),
            r == self@.contains_key(key_of(*key)),
    {
        proof {
            lemma_key_index(self.keys(), key_of(*key));
            lemma_map_of(self.entries@, key_of(*key));
            assert(entry_keys(self.entries@) == self.keys());
        }
        self.find((key.0.start, key.0.end, key.1)).is_some()
    }

    /// Stores `value` under `key`, replacing an earlier value for the key.
    pub fn insert(&mut self, key: (Range<usize>, u64), value: CachedBlockPreview)
        ensures
            key_index(old(self).keys(), key_of(key)) == -1 ==> final(self).keys() == old(self).keys().push(
                key_of(key),
            ) && final(self).values() == old(self).values().push(value),
            key_index(old(self).keys(), key_of(key)) != -1 ==> final(self).keys() == old(self).keys()
                && final(self).values() == old(self).values().update(
                key_index(old(self).keys(), key_of(key)),
                value,
            ),
            final(self)@ == old(self)@.insert(key_of(key), value@),
    {
        let k = (key.0.start, key.0.end, key.1);
        proof {
            lemma_map_of(self.entries@, k);
            assert(entry_keys(self.entries@) == self.keys());
        }
        match self.find(k) {
            Some(i) => {
                proof {
                    lemma_key_index(self.keys(), k);
                    assert(self.entries@[i as int].0 == k);
                    lemma_map_of_update(self.entries@, i as int, value);
                }
                let ghost old_keys = self.keys();
                let ghost old_values = self.values();
                self.entries.set(i, (k, value));
                assert(self.keys() =~= old_keys);
                assert(self.values() =~= old_values.update(i as int, value));
            },
            None => {
                let ghost old_keys = self.keys();
                let ghost old_values = self.values();
                let ghost old_entries = self.entries@;
                self.entries.push((k, value));
                assert(self.entries@.drop_last() =~= old_entries);
                assert(self.keys() =~= old_keys.push(k));
                assert(self.values() =~= old_values.push(value));
            },
        }
    }

    /// Number of cached blocks.
    pub fn len(&self) -> (r: usize)
        ensures
            r == self.keys().len(),
    {
        self.entries.len()
    }
}

/// Returns the cached preview for `(range, hash)`, computing and storing it
/// with `compute` on a miss; `compute` runs only on a miss.
pub fn get_or_insert_cached_preview<F: FnOnce() -> CachedBlockPreview>(
    cache: &mut BlockPreviewCache,
    range: Range<usize>,
    hash: u64,
    compute: F,
) -> (r: CachedBlockPreview)
    requires
        call_requires(compute, ()),
    ensures
        key_index(old(cache).keys(), (range.start, range.end, hash)) != -1 ==> final(cache).keys()
            == old(cache).keys() && final(cache).values() == old(cache).values() && r@ == old(
            cache,
        ).values()[key_index(old(cache).keys(), (range.start, range.end, hash))]@,
        key_index(old(cache).keys(), (range.start, range.end, hash)) == -1 ==> final(cache).keys()
            == old(cache).keys().push((range.start, range.end, hash)) && final(cache).values().drop_last()
            == old(cache).values() && call_ensures(compute, (), final(cache).values().last()) && r@
            == final(cache).values().last()@,
        old(cache)@.contains_key((range.start, range.end, hash)) ==> final(cache)@ == old(cache)@ && r@ == old(
            cache,
        )@[(range.start, range.end, hash)],
        !old(cache)@.contains_key((range.start, range.end, hash)) ==> final(cache)@ == old(cache)@.insert(
            (range.start, range.end, hash),
            r@,
        ),
{
    let k = (range.start, range.end, hash);
    proof {
        lemma_map_of(cache.entries@, k);
        assert(entry_keys(cache.entries@) == cache.keys());
    }
    match cache.find(k) {
        Some(i) => {
            proof {
                lemma_key_index(cache.keys(), k);
            }
            assert(cache.values()[i as int] == cache.entries@[i as int].1);
            cache.entries[i].1.clone()
        },
        None => {
            let value = compute();
            let out = value.clone();
            let ghost old_keys = cache.keys();
            let ghost old_values = cache.values();
            let ghost old_entries = cache.entries@;
            cache.entries.push((k, value));
            assert(cache.entries@.drop_last() =~= old_entries);
            assert(cache.keys() =~= old_keys.push(k));
            assert(cache.values() =~= old_values.push(value));
            assert(cache.values().drop_last() =~= old_values);
            out
        },
    }
}

/// Whether the range of key `k` is one of `current`.
pub open spec fn range_listed(current: Seq<Range<usize>>, k: (usize, usize, u64)) -> bool {
    exists|j: int| 0 <= j < current.len() && current[j].start == k.0 && current[j].end == k.1
}

/// The entries of `es` whose range is listed, in order.
pub open spec fn kept_entries(
    es: Seq<((usize, usize, u64), CachedBlockPreview)>,
    current: Seq<Range<usize>>,
) -> Seq<((usize, usize, u64), CachedBlockPreview)>
    decreases es.len(),
{
    if es.len() == 0 {
        Seq::empty()
    } else if range_listed(current, es.last().0) {
        kept_entries(es.drop_last(), current).push(es.last())
    } else {
        kept_entries(es.drop_last(), current)
    }
}

impl BlockPreviewCache {
    /// The entries, in insertion order.
    pub closed spec fn entries_v(&self) -> Seq<((usize, usize, u64), CachedBlockPreview)> {
        self.entries@
    }
}

/// Drops the entries whose range is not among `current_ranges`, keeping the
/// others in order.
pub fn sweep_stale_block_previews(cache: &mut BlockPreviewCache, current_ranges: &[Range<usize>])
    ensures
        final(cache).entries_v() == kept_entries(old(cache).entries_v(), current_ranges@),
        final(cache)@ == old(cache)@.restrict(Set::new(|k: (usize, usize, u64)| range_listed(current_ranges@, k))),
{
    proof {
        lemma_map_of_kept(cache.entries@, current_ranges@);
    }
    let mut rest: Vec<((usize, usize, u64), CachedBlockPreview)> = Vec::new();
    std::mem::swap(&mut rest, &mut cache.entries);
    let ghost orig = rest@;
    let total = rest.len();
    let mut kept: Vec<((usize, usize, u64), CachedBlockPreview)> = Vec::new();
    let mut i: usize = 0;
    assert(orig.take(0) =~= Seq::<((usize, usize, u64), CachedBlockPreview)>::empty());
    while rest.len() > 0
        invariant
            i + rest@.len() == orig.len(),
            orig.len() == total,
            rest@ == orig.skip(i as int),
            kept@ == kept_entries(orig.take(i as int), current_ranges@),
        decreases rest@.len(),
    {
        let e = rest.remove(0);
        assert(e == orig[i as int]);
        let k = e.0;
        let mut found = false;
        let mut j: usize = 0;
        while j < current_ranges.len() && !found
            invariant
                0 <= j <= current_ranges@.len(),
                found ==> range_listed(current_ranges@, k),
                !found ==> forall|x: int| 0 <= x < j ==> !(current_ranges@[x].start == k.0
                    && current_ranges@[x].end == k.1),
            decreases current_ranges@.len() - j,
        {
            if current_ranges[j].start == k.0 && current_ranges[j].end == k.1 {
                found = true;
            }
            j = j + 1;
        }
        assert(orig.take(i + 1).drop_last() =~= orig.take(i as int));
        assert(orig.take(i + 1).last() == e);
        if found {
            kept.push(e);
        }
        assert(rest@ =~= orig.skip(i + 1));
        i = i + 1;
    }
    assert(orig.take(i as int) =~= orig);
    cache.entries = kept;
}

/// The hash std's `DefaultHasher` gives the text with UTF-8 bytes `b`. Every
/// `DefaultHasher` made by `new` or `default` hashes alike, so the value is a
/// function of the text alone; the algorithm itself is left unstated.
pub uninterp spec fn default_hash_of(b: Seq<u8>) -> u64;

/// Hashes `text` with std's `DefaultHasher` (via `BuildHasherDefault::hash_one`).
/// The contract claims only that the value depends on the text alone, as
/// std documents for hashers made by `DefaultHasher::new`; the algorithm is
/// unspecified and named by `default_hash_of`.
#[verifier::external_body]
fn default_hash(text: &str) -> (r: u64)
    ensures
        r == default_hash_of(text.spec_bytes()),
{
    std::hash::BuildHasher::hash_one(&std::hash::BuildHasherDefault::<std::hash::DefaultHasher>::default(), text)
}

/// A 64-bit fingerprint of a block's text; with the block's byte range it
/// keys the preview cache. Equal texts always give equal fingerprints.
pub fn hash_block_text(text: &str) -> (r: u64)
    ensures
        r == default_hash_of(text.spec_bytes()),
{
    default_hash(text)
}

// ---------------------------------------------------------------------------
// Markdown blocks
// ---------------------------------------------------------------------------
/// The lines of `b` from `p`: each up to and including its `\n`.
pub open spec fn lines_from(b: Seq<u8>, p: int) -> Seq<(int, int)>
    decreases b.len() - p,
{
    if p < 0 || p >= b.len() {
        Seq::empty()
    } else {
        proof {
            crate::text::lemma_line_end(b, p);
        }
        seq![(p, line_end(b, p))] + lines_from(b, line_end(b, p))
    }
}

/// The line ranges of `b`; an empty text has one empty line.
pub open spec fn line_ranges_of(b: Seq<u8>) -> Seq<(int, int)> {
    if b.len() == 0 {
        seq![(0int, 0int)]
    } else {
        lines_from(b, 0)
    }
}

pub open spec fn fence3() -> Seq<u8> {
    seq![0x60u8, 0x60, 0x60]
}

/// Whether `b[x..z]` starts with `p`.
pub open spec fn starts_in(b: Seq<u8>, x: int, z: int, p: Seq<u8>) -> bool {
    x + p.len() <= z && matches_at(b, x, p)
}

/// The heading level of `b[x..z]`: one to six `#` then a space.
pub open spec fn is_heading_at(b: Seq<u8>, x: int, z: int) -> bool {
    let lvl = run_len(b, x, z, 0x23);
    1 <= lvl <= 6 && x + lvl < z && b[x + lvl] == 0x20
}

/// Whether `b[x..z]` starts a list item: `- `, `* ` or `+ `.
pub open spec fn is_list_at(b: Seq<u8>, x: int, z: int) -> bool {
    z - x >= 2 && (b[x] == 0x2D || b[x] == 0x2A || b[x] == 0x2B) && b[x + 1] == 0x20
}

pub open spec fn is_blank(b: Seq<u8>, r: (int, int)) -> bool {
    trim_lo(b, r.0, r.1) == trim_hi(b, r.0, r.1)
}

pub open spec fn t_fence(b: Seq<u8>, r: (int, int)) -> bool {
    starts_in(b, trim_lo(b, r.0, r.1), trim_hi(b, r.0, r.1), fence3())
}

pub open spec fn t_heading(b: Seq<u8>, r: (int, int)) -> bool {
    is_heading_at(b, trim_lo(b, r.0, r.1), trim_hi(b, r.0, r.1))
}

pub open spec fn t_table(b: Seq<u8>, r: (int, int)) -> bool {
    trim_lo(b, r.0, r.1) < trim_hi(b, r.0, r.1) && b[trim_lo(b, r.0, r.1)] == 0x7C
}

pub open spec fn t_list(b: Seq<u8>, r: (int, int)) -> bool {
    is_list_at(b, trim_lo(b, r.0, r.1), trim_hi(b, r.0, r.1))
}

/// The line, with only leading whitespace removed, starts with a fence.
pub open spec fn s_fence(b: Seq<u8>, r: (int, int)) -> bool {
    starts_in(b, skip_ws(b, r.0, r.1), r.1, fence3())
}

/// The line, with only leading whitespace removed, starts with `|`.
pub open spec fn s_table(b: Seq<u8>, r: (int, int)) -> bool {
    skip_ws(b, r.0, r.1) < r.1 && b[skip_ws(b, r.0, r.1)] == 0x7C
}

/// Whether the line ends a paragraph.
pub open spec fn para_stop(b: Seq<u8>, r: (int, int)) -> bool {
    is_blank(b, r) || t_heading(b, r) || t_fence(b, r) || t_table(b, r) || t_list(b, r)
}

/// First line index at or after `i` satisfying `p`, or the number of lines.
pub open spec fn first_line(ls: Seq<(int, int)>, i: int, p: spec_fn((int, int)) -> bool) -> int
    decreases ls.len() - i,
{
    if i < 0 || i >= ls.len() {
        ls.len() as int
    } else if p(ls[i]) {
        i
    } else {
        first_line(ls, i + 1, p)
    }
}

pub proof fn lemma_first_line(ls: Seq<(int, int)>, i: int, p: spec_fn((int, int)) -> bool)
    requires
        0 <= i <= ls.len(),
    ensures
        i <= first_line(ls, i, p) <= ls.len(),
        first_line(ls, i, p) < ls.len() ==> p(ls[first_line(ls, i, p)]),
        forall|j: int| i <= j < first_line(ls, i, p) ==> !p(ls[j]),
    decreases ls.len() - i,
{
    if i < ls.len() && !p(ls[i]) {
        lemma_first_line(ls, i + 1, p);
    }
}

/// The blocks from line `i` on.
pub open spec fn blocks_from(b: Seq<u8>, ls: Seq<(int, int)>, i: int) -> Seq<(int, int)>
    decreases ls.len() - i,
{
    if i < 0 || i >= ls.len() {
        Seq::empty()
    } else {
        let r = ls[i];
        let next: int = if is_blank(b, r) || t_heading(b, r) {
            i + 1
        } else if t_fence(b, r) {
            let j = first_line(ls, i + 1, |x: (int, int)| s_fence(b, x));
            if j < ls.len() {
                j + 1
            } else {
                j
            }
        } else if t_table(b, r) {
            first_line(ls, i + 1, |x: (int, int)| !s_table(b, x))
        } else if t_list(b, r) {
            first_line(ls, i + 1, |x: (int, int)| !t_list(b, x))
        } else {
            first_line(ls, i + 1, |x: (int, int)| para_stop(b, x))
        };
        proof {
            lemma_first_line(ls, i + 1, |x: (int, int)| s_fence(b, x));
            lemma_first_line(ls, i + 1, |x: (int, int)| !s_table(b, x));
            lemma_first_line(ls, i + 1, |x: (int, int)| !t_list(b, x));
            lemma_first_line(ls, i + 1, |x: (int, int)| para_stop(b, x));
        }
        seq![(r.0, ls[next - 1].1)] + blocks_from(b, ls, next)
    }
}

/// Whether the line is `---` once trimmed.
pub open spec fn is_dashes(b: Seq<u8>, r: (int, int)) -> bool {
    b.subrange(trim_lo(b, r.0, r.1), trim_hi(b, r.0, r.1)) == crate::note::dashes()
}

/// The Markdown blocks of `b` as byte ranges: a frontmatter block (a source
/// starting with `---` up to the next `---` line), then blank lines,
/// headings, fenced code, tables, lists and paragraphs.
pub open spec fn markdown_blocks_of(b: Seq<u8>) -> Seq<(int, int)> {
    let ls = line_ranges_of(b);
    let k = first_line(ls, 1, |x: (int, int)| is_dashes(b, x));
    let all = if starts_in(b, 0, b.len() as int, crate::note::dashes()) && k < ls.len() {
        seq![(0int, ls[k].1)] + blocks_from(b, ls, k + 1)
    } else {
        blocks_from(b, ls, 0)
    };
    if all.len() == 0 {
        seq![(0int, b.len() as int)]
    } else {
        all
    }
}


proof fn lemma_lines_from(b: Seq<u8>, p: int)
    requires
        valid_utf8(b),
        0 <= p <= b.len(),
        is_char_boundary(b, p),
    ensures
        forall|i: int|
            0 <= i < lines_from(b, p).len() ==> p <= (#[trigger] lines_from(b, p)[i]).0 < lines_from(b, p)[i].1
                <= b.len() && is_char_boundary(b, lines_from(b, p)[i].0) && is_char_boundary(
                b,
                lines_from(b, p)[i].1,
            ),
        forall|i: int, j: int|
            0 <= i < j < lines_from(b, p).len() ==> (#[trigger] lines_from(b, p)[i]).1 <= (#[trigger] lines_from(b, p)[j]).0,
    decreases b.len() - p,
{
    if p < b.len() {
        crate::text::lemma_line_end(b, p);
        crate::text::lemma_line_end_boundary(b, p);
        let e = line_end(b, p);
        lemma_lines_from(b, e);
        let rest = lines_from(b, e);
        let all = lines_from(b, p);
        assert(all == seq![(p, e)] + rest);
        assert forall|i: int| 0 <= i < all.len() implies p <= (#[trigger] all[i]).0 < all[i].1 <= b.len()
            && is_char_boundary(b, all[i].0) && is_char_boundary(b, all[i].1) by {
            if i > 0 {
                assert(all[i] == rest[i - 1]);
            }
        }
        assert forall|i: int, j: int| 0 <= i < j < all.len() implies (#[trigger] all[i]).1 <= (#[trigger] all[j]).0 by {
            assert(all[j] == rest[j - 1]);
            if i > 0 {
                assert(all[i] == rest[i - 1]);
            }
        }
    }
}

/// Whether the byte ranges `rs` lie in order, without overlapping, inside
/// `b`, each starting and ending on a character boundary.
pub open spec fn ranges_tile(b: Seq<u8>, rs: Seq<(int, int)>) -> bool {
    &&& forall|m: int|
        0 <= m < rs.len() ==> 0 <= (#[trigger] rs[m]).0 <= rs[m].1 <= b.len() && is_char_boundary(b, rs[m].0)
            && is_char_boundary(b, rs[m].1)
    &&& forall|m: int, n: int| 0 <= m < n < rs.len() ==> (#[trigger] rs[m]).1 <= (#[trigger] rs[n]).0
}

proof fn lemma_blocks_from_tile(b: Seq<u8>, ls: Seq<(int, int)>, i: int)
    requires
        ranges_tile(b, ls),
        0 <= i,
    ensures
        ranges_tile(b, blocks_from(b, ls, i)),
        forall|m: int| 0 <= m < blocks_from(b, ls, i).len() ==> ls[i].0 <= (#[trigger] blocks_from(b, ls, i)[m]).0,
    decreases ls.len() - i,
{
    if i < ls.len() {
        lemma_first_line(ls, i + 1, |x: (int, int)| s_fence(b, x));
        lemma_first_line(ls, i + 1, |x: (int, int)| !s_table(b, x));
        lemma_first_line(ls, i + 1, |x: (int, int)| !t_list(b, x));
        lemma_first_line(ls, i + 1, |x: (int, int)| para_stop(b, x));
        let r = ls[i];
        let next: int = if is_blank(b, r) || t_heading(b, r) {
            i + 1
        } else if t_fence(b, r) {
            let j = first_line(ls, i + 1, |x: (int, int)| s_fence(b, x));
            if j < ls.len() {
                j + 1
            } else {
                j
            }
        } else if t_table(b, r) {
            first_line(ls, i + 1, |x: (int, int)| !s_table(b, x))
        } else if t_list(b, r) {
            first_line(ls, i + 1, |x: (int, int)| !t_list(b, x))
        } else {
            first_line(ls, i + 1, |x: (int, int)| para_stop(b, x))
        };
        let all = blocks_from(b, ls, i);
        assert(all == seq![(r.0, ls[next - 1].1)] + blocks_from(b, ls, next));
        let k = next - 1;
        assert(i <= k < ls.len());
        let rest = blocks_from(b, ls, k + 1);
        assert(all == seq![(ls[i].0, ls[k].1)] + rest);
        lemma_blocks_from_tile(b, ls, k + 1);
        assert(ls[i].0 <= ls[i].1);
        if k > i {
            assert(ls[i].1 <= ls[k].0);
        }
        assert forall|m: int| 0 <= m < all.len() implies 0 <= (#[trigger] all[m]).0 <= all[m].1 <= b.len()
            && is_char_boundary(b, all[m].0) && is_char_boundary(b, all[m].1) && ls[i].0 <= all[m].0 by {
            if m > 0 {
                assert(all[m] == rest[m - 1]);
                if k + 1 < ls.len() {
                    assert(ls[i].0 <= ls[k + 1].0);
                } else {
                    assert(rest.len() == 0);
                }
            }
        }
        assert forall|m: int, n: int| 0 <= m < n < all.len() implies (#[trigger] all[m]).1 <= (#[trigger] all[n]).0 by {
            assert(all[n] == rest[n - 1]);
            if m > 0 {
                assert(all[m] == rest[m - 1]);
            } else {
                if k + 1 < ls.len() {
                    assert(ls[k].1 <= ls[k + 1].0);
                } else {
                    assert(rest.len() == 0);
                }
            }
        }
    }
}

/// The blocks of any text lie in order, without overlapping, inside it, and
/// start and end on character boundaries: any block's range can be handed
/// to [`replace_block_text`].
pub proof fn lemma_blocks_tile_source(b: Seq<u8>)
    requires
        valid_utf8(b),
    ensures
        ranges_tile(b, markdown_blocks_of(b)),
{
    is_char_boundary_start_end_of_seq(b);
    let ls = line_ranges_of(b);
    if b.len() == 0 {
        assert(ls =~= seq![(0int, 0int)]);
    } else {
        lemma_lines_from(b, 0);
    }
    assert(ranges_tile(b, ls));
    let k = first_line(ls, 1, |x: (int, int)| is_dashes(b, x));
    lemma_first_line(ls, 1, |x: (int, int)| is_dashes(b, x));
    if starts_in(b, 0, b.len() as int, crate::note::dashes()) && k < ls.len() {
        lemma_blocks_from_tile(b, ls, k + 1);
        let rest = blocks_from(b, ls, k + 1);
        let all = seq![(0int, ls[k].1)] + rest;
        assert forall|m: int| 0 <= m < all.len() implies 0 <= (#[trigger] all[m]).0 <= all[m].1 <= b.len()
            && is_char_boundary(b, all[m].0) && is_char_boundary(b, all[m].1) by {
            if m > 0 {
                assert(all[m] == rest[m - 1]);
            }
        }
        assert forall|m: int, n: int| 0 <= m < n < all.len() implies (#[trigger] all[m]).1 <= (#[trigger] all[n]).0 by {
            assert(all[n] == rest[n - 1]);
            if m > 0 {
                assert(all[m] == rest[m - 1]);
            } else if k + 1 < ls.len() {
                assert(ls[k].1 <= ls[k + 1].0);
            }
        }
        assert(ranges_tile(b, all));
    } else {
        lemma_blocks_from_tile(b, ls, 0);
    }
}

/// Whether the ranges `rs` cover `b` exactly, one after the other: the
/// first starts at 0, each ends where the next starts, the last ends at the
/// end of `b`, and a range is empty only when `b` is.
pub open spec fn ranges_cover(b: Seq<u8>, rs: Seq<(int, int)>) -> bool {
    &&& rs.len() > 0
    &&& rs[0].0 == 0
    &&& rs.last().1 == b.len()
    &&& forall|i: int, j: int| 0 <= i && j == i + 1 && j < rs.len() ==> (#[trigger] rs[i]).1 == (#[trigger] rs[j]).0
    &&& forall|i: int| 0 <= i < rs.len() ==> (#[trigger] rs[i]).0 <= rs[i].1 && (rs[i].0 < rs[i].1 || b.len() == 0)
}

proof fn lemma_lines_cover(b: Seq<u8>, p: int)
    requires
        0 <= p < b.len(),
    ensures
        lines_from(b, p).len() > 0,
        lines_from(b, p)[0].0 == p,
        lines_from(b, p).last().1 == b.len(),
        forall|i: int, j: int|
            0 <= i && j == i + 1 && j < lines_from(b, p).len() ==> (#[trigger] lines_from(b, p)[i]).1 == (
            #[trigger] lines_from(b, p)[j]).0,
        forall|i: int| 0 <= i < lines_from(b, p).len() ==> (#[trigger] lines_from(b, p)[i]).0 < lines_from(b, p)[i].1,
    decreases b.len() - p,
{
    crate::text::lemma_line_end(b, p);
    let e = line_end(b, p);
    let all = lines_from(b, p);
    let rest = lines_from(b, e);
    assert(all == seq![(p, e)] + rest);
    if e < b.len() {
        lemma_lines_cover(b, e);
        assert(all.last() == rest.last());
        assert forall|i: int, j: int| 0 <= i && j == i + 1 && j < all.len() implies (#[trigger] all[i]).1 == (
        #[trigger] all[j]).0 by {
            assert(all[j] == rest[j - 1]);
            if i > 0 {
                assert(all[i] == rest[i - 1]);
            }
        }
        assert forall|i: int| 0 <= i < all.len() implies (#[trigger] all[i]).0 < all[i].1 by {
            if i > 0 {
                assert(all[i] == rest[i - 1]);
            }
        }
    } else {
        assert(rest.len() == 0);
        assert(all =~= seq![(p, e)]);
    }
}

proof fn lemma_blocks_from_cover(b: Seq<u8>, ls: Seq<(int, int)>, i: int)
    requires
        ranges_cover(b, ls),
        0 <= i < ls.len(),
    ensures
        blocks_from(b, ls, i).len() > 0,
        blocks_from(b, ls, i)[0].0 == ls[i].0,
        blocks_from(b, ls, i).last().1 == b.len(),
        forall|m: int, n: int|
            0 <= m && n == m + 1 && n < blocks_from(b, ls, i).len() ==> (#[trigger] blocks_from(b, ls, i)[m]).1 == (
            #[trigger] blocks_from(b, ls, i)[n]).0,
        forall|m: int|
            0 <= m < blocks_from(b, ls, i).len() ==> (#[trigger] blocks_from(b, ls, i)[m]).0 <= blocks_from(b, ls, i)[m].1
                && (blocks_from(b, ls, i)[m].0 < blocks_from(b, ls, i)[m].1 || b.len() == 0),
    decreases ls.len() - i,
{
    lemma_first_line(ls, i + 1, |x: (int, int)| s_fence(b, x));
    lemma_first_line(ls, i + 1, |x: (int, int)| !s_table(b, x));
    lemma_first_line(ls, i + 1, |x: (int, int)| !t_list(b, x));
    lemma_first_line(ls, i + 1, |x: (int, int)| para_stop(b, x));
    let r = ls[i];
    let next: int = if is_blank(b, r) || t_heading(b, r) {
        i + 1
    } else if t_fence(b, r) {
        let j = first_line(ls, i + 1, |x: (int, int)| s_fence(b, x));
        if j < ls.len() {
            j + 1
        } else {
            j
        }
    } else if t_table(b, r) {
        first_line(ls, i + 1, |x: (int, int)| !s_table(b, x))
    } else if t_list(b, r) {
        first_line(ls, i + 1, |x: (int, int)| !t_list(b, x))
    } else {
        first_line(ls, i + 1, |x: (int, int)| para_stop(b, x))
    };
    let all = blocks_from(b, ls, i);
    assert(all == seq![(r.0, ls[next - 1].1)] + blocks_from(b, ls, next));
    let k = next - 1;
    let rest = blocks_from(b, ls, k + 1);
    lemma_cover_starts_grow(b, ls, i, k);
    if k + 1 < ls.len() {
        lemma_blocks_from_cover(b, ls, k + 1);
        assert(ls[k].1 == ls[k + 1].0);
        assert(all.last() == rest.last());
        assert forall|m: int, n: int| 0 <= m && n == m + 1 && n < all.len() implies (#[trigger] all[m]).1 == (
        #[trigger] all[n]).0 by {
            assert(all[n] == rest[n - 1]);
            if m > 0 {
                assert(all[m] == rest[m - 1]);
            }
        }
        assert forall|m: int| 0 <= m < all.len() implies (#[trigger] all[m]).0 <= all[m].1 && (all[m].0 < all[m].1 || b.len() == 0) by {
            if m > 0 {
                assert(all[m] == rest[m - 1]);
            }
        }
    } else {
        assert(rest.len() == 0);
        assert(all =~= seq![(ls[i].0, ls[k].1)]);
        assert(ls.last() == ls[k]);
    }
}

proof fn lemma_cover_starts_grow(b: Seq<u8>, ls: Seq<(int, int)>, x: int, y: int)
    requires
        ranges_cover(b, ls),
        0 <= x <= y < ls.len(),
    ensures
        ls[x].0 <= ls[y].0,
        ls[x].0 <= ls[y].1,
        ls[x].0 < ls[y].1 || b.len() == 0,
    decreases y - x,
{
    assert(ls[y].0 < ls[y].1 || b.len() == 0);
    if x < y {
        lemma_cover_starts_grow(b, ls, x, y - 1);
        assert(ls[y - 1].1 == ls[y].0);
    }
}

/// The blocks of any text cover it exactly, one after the other: the first
/// starts at 0, each ends where the next starts, the last ends at the end
/// of the text, and a block is empty only when the text is. So the block
/// texts, joined in order, give back the text.
pub proof fn lemma_blocks_cover_source(b: Seq<u8>)
    ensures
        ranges_cover(b, markdown_blocks_of(b)),
{
    let ls = line_ranges_of(b);
    if b.len() == 0 {
        assert(ls =~= seq![(0int, 0int)]);
    } else {
        lemma_lines_cover(b, 0);
    }
    assert(ranges_cover(b, ls));
    let k = first_line(ls, 1, |x: (int, int)| is_dashes(b, x));
    lemma_first_line(ls, 1, |x: (int, int)| is_dashes(b, x));
    if starts_in(b, 0, b.len() as int, crate::note::dashes()) && k < ls.len() {
        lemma_cover_starts_grow(b, ls, 0, k);
        let all = seq![(0int, ls[k].1)] + blocks_from(b, ls, k + 1);
        let rest = blocks_from(b, ls, k + 1);
        if k + 1 < ls.len() {
            lemma_blocks_from_cover(b, ls, k + 1);
            assert(ls[k].1 == ls[k + 1].0);
            assert(all.last() == rest.last());
            assert forall|m: int, n: int| 0 <= m && n == m + 1 && n < all.len() implies (#[trigger] all[m]).1 == (
            #[trigger] all[n]).0 by {
                assert(all[n] == rest[n - 1]);
                if m > 0 {
                    assert(all[m] == rest[m - 1]);
                }
            }
            assert forall|m: int| 0 <= m < all.len() implies (#[trigger] all[m]).0 <= all[m].1 && (all[m].0 < all[m].1 || b.len() == 0) by {
                if m > 0 {
                    assert(all[m] == rest[m - 1]);
                }
            }
        } else {
            assert(rest.len() == 0);
            assert(all =~= seq![(0int, ls[k].1)]);
            assert(ls.last() == ls[k]);
        }
        assert(ranges_cover(b, all));
    } else {
        lemma_blocks_from_cover(b, ls, 0);
    }
}

/// A Markdown block: its byte range and its text.
#[derive(Debug)]
pub struct MarkdownBlock {
    /// Byte range of the block in the source.
    pub range: Range<usize>,
    /// The text of the block.
    pub text: String,
}

impl Clone for MarkdownBlock {
    fn clone(&self) -> (r: MarkdownBlock)
        ensures
            r.range.start == self.range.start,
            r.range.end == self.range.end,
            r.text == self.text,
    {
        MarkdownBlock { range: self.range.start..self.range.end, text: self.text.clone() }
    }
}

pub open spec fn block_ranges(v: Seq<MarkdownBlock>) -> Seq<(int, int)> {
    v.map_values(|m: MarkdownBlock| (m.range.start as int, m.range.end as int))
}

fn line_ranges(source: &str) -> (r: Vec<(usize, usize)>)
    ensures
        r@.map_values(|x: (usize, usize)| (x.0 as int, x.1 as int)) == line_ranges_of(source.spec_bytes()),
{
    let b = source.as_bytes();
    let mut out: Vec<(usize, usize)> = Vec::new();
    if b.len() == 0 {
        out.push((0, 0));
        assert(out@.map_values(|x: (usize, usize)| (x.0 as int, x.1 as int)) =~= seq![(0int, 0int)]);
        return out;
    }
    let mut p: usize = 0;
    assert(out@.map_values(|x: (usize, usize)| (x.0 as int, x.1 as int)) + lines_from(b@, 0) =~= lines_from(b@, 0));
    while p < b.len()
        invariant
            p <= b@.len(),
            b@ == source.spec_bytes(),
            out@.map_values(|x: (usize, usize)| (x.0 as int, x.1 as int)) + lines_from(b@, p as int) == lines_from(b@, 0),
        decreases b@.len() - p,
    {
        let e = crate::text::line_end_exec(b, p);
        let ghost before = out@;
        out.push((p, e));
        assert(out@.map_values(|x: (usize, usize)| (x.0 as int, x.1 as int)) + lines_from(b@, e as int)
            =~= before.map_values(|x: (usize, usize)| (x.0 as int, x.1 as int)) + lines_from(b@, p as int));
        p = e;
    }
    assert(out@.map_values(|x: (usize, usize)| (x.0 as int, x.1 as int)) + lines_from(b@, p as int) =~= out@.map_values(|x: (usize, usize)| (x.0 as int, x.1 as int)));
    out
}

fn trim_exec(b: &[u8], r: (usize, usize)) -> (t: (usize, usize))
    requires
        r.0 <= r.1 <= b@.len(),
    ensures
        t.0 == trim_lo(b@, r.0 as int, r.1 as int),
        t.1 == trim_hi(b@, r.0 as int, r.1 as int),
        r.0 <= t.0 <= t.1 <= r.1,
{
    crate::text::trim_range(b, r.0, r.1)
}

fn starts_fence_exec(b: &[u8], x: usize, z: usize) -> (r: bool)
    requires
        x <= z <= b@.len(),
    ensures
        r == starts_in(b@, x as int, z as int, fence3()),
{
    let r = z - x >= 3 && b[x] == 0x60 && b[x + 1] == 0x60 && b[x + 2] == 0x60;
    proof {
        if r {
            assert(b@.subrange(x as int, x + 3) =~= fence3());
        } else if z - x >= 3 && matches_at(b@, x as int, fence3()) {
            assert(b@.subrange(x as int, x + 3)[0] == b@[x as int]);
            assert(b@.subrange(x as int, x + 3)[1] == b@[x + 1]);
            assert(b@.subrange(x as int, x + 3)[2] == b@[x + 2]);
        }
    }
    r
}

fn is_heading_exec(b: &[u8], x: usize, z: usize) -> (r: bool)
    requires
        x <= z <= b@.len(),
    ensures
        r == is_heading_at(b@, x as int, z as int),
{
    let lvl = crate::text::run_len_exec(b, x, z, 0x23);
    1 <= lvl && lvl <= 6 && x + lvl < z && b[x + lvl] == 0x20
}

fn is_list_exec(b: &[u8], x: usize, z: usize) -> (r: bool)
    requires
        x <= z <= b@.len(),
    ensures
        r == is_list_at(b@, x as int, z as int),
{
    z - x >= 2 && (b[x] == 0x2D || b[x] == 0x2A || b[x] == 0x2B) && b[x + 1] == 0x20
}

fn line_kind(b: &[u8], r: (usize, usize)) -> (k: (bool, bool, bool, bool, bool))
    requires
        r.0 <= r.1 <= b@.len(),
    ensures
        k.0 == is_blank(b@, (r.0 as int, r.1 as int)),
        k.1 == t_heading(b@, (r.0 as int, r.1 as int)),
        k.2 == t_fence(b@, (r.0 as int, r.1 as int)),
        k.3 == t_table(b@, (r.0 as int, r.1 as int)),
        k.4 == t_list(b@, (r.0 as int, r.1 as int)),
{
    let (x, z) = trim_exec(b, r);
    (x == z, is_heading_exec(b, x, z), starts_fence_exec(b, x, z), x < z && b[x] == 0x7C, is_list_exec(b, x, z))
}

fn block_of(s: &str, lo: usize, hi: usize) -> (m: MarkdownBlock)
    requires
        lo <= hi <= s.spec_bytes().len(),
        is_char_boundary(s.spec_bytes(), lo as int),
        is_char_boundary(s.spec_bytes(), hi as int),
    ensures
        m.range.start == lo,
        m.range.end == hi,
        utf8_bytes(m.text@) == s.spec_bytes().subrange(lo as int, hi as int),
{
    MarkdownBlock { range: lo..hi, text: owned_slice(s, lo, hi) }
}

fn s_fence_exec(b: &[u8], r: (usize, usize)) -> (t: bool)
    requires
        r.0 <= r.1 <= b@.len(),
    ensures
        t == s_fence(b@, (r.0 as int, r.1 as int)),
{
    let sx = crate::text::skip_ws_exec(b, r.0, r.1);
    starts_fence_exec(b, sx, r.1)
}

fn s_table_exec(b: &[u8], r: (usize, usize)) -> (t: bool)
    requires
        r.0 <= r.1 <= b@.len(),
    ensures
        t == s_table(b@, (r.0 as int, r.1 as int)),
{
    let sx = crate::text::skip_ws_exec(b, r.0, r.1);
    sx < r.1 && b[sx] == 0x7C
}

fn para_stop_exec(b: &[u8], r: (usize, usize)) -> (t: bool)
    requires
        r.0 <= r.1 <= b@.len(),
    ensures
        t == para_stop(b@, (r.0 as int, r.1 as int)),
{
    let kd = line_kind(b, r);
    kd.0 || kd.1 || kd.2 || kd.3 || kd.4
}

fn list_exec(b: &[u8], r: (usize, usize)) -> (t: bool)
    requires
        r.0 <= r.1 <= b@.len(),
    ensures
        t == t_list(b@, (r.0 as int, r.1 as int)),
{
    line_kind(b, r).4
}

/// Splits `source` into Markdown blocks: a leading frontmatter block, blank
/// lines, headings, fenced code, tables, lists and paragraphs, each with its
/// byte range and text.
pub fn markdown_blocks(source: &str) -> (r: Vec<MarkdownBlock>)
    ensures
        block_ranges(r@) == markdown_blocks_of(source.spec_bytes()),
        forall|i: int| 0 <= i < r@.len() ==> utf8_bytes((#[trigger] r@[i]).text@) == source.spec_bytes().subrange(
            r@[i].range.start as int,
            r@[i].range.end as int,
        ),
{
    let b = source.as_bytes();
    proof {
        lemma_str_valid(source);
        is_char_boundary_start_end_of_seq(b@);
        lemma_lines_from(b@, 0);
    }
    let lines = line_ranges(source);
    let ghost ls = line_ranges_of(b@);
    let n = lines.len();
    proof {
        assert forall|i: int| 0 <= i < n implies (#[trigger] lines@[i]).0 as int == ls[i].0 && lines@[i].1 as int == ls[i].1 by {
            assert(lines@.map_values(|x: (usize, usize)| (x.0 as int, x.1 as int))[i] == ls[i]);
        }
        if b@.len() == 0 {
            assert(ls =~= seq![(0int, 0int)]);
        }
    }
    let mut blocks: Vec<MarkdownBlock> = Vec::new();
    let mut index: usize = 0;
    let dash = b.len() >= 3 && b[0] == 0x2D && b[1] == 0x2D && b[2] == 0x2D;
    proof {
        if dash {
            assert(b@.subrange(0, 3) =~= crate::note::dashes());
        } else if starts_in(b@, 0, b@.len() as int, crate::note::dashes()) {
            assert(b@.subrange(0, 3)[0] == b@[0] && b@.subrange(0, 3)[1] == b@[1] && b@.subrange(0, 3)[2] == b@[2]);
        }
    }
    let ghost kf = first_line(ls, 1, |x: (int, int)| is_dashes(b@, x));
    let ghost target = if starts_in(b@, 0, b@.len() as int, crate::note::dashes()) && kf < ls.len() {
        seq![(0int, ls[kf].1)] + blocks_from(b@, ls, kf + 1)
    } else {
        blocks_from(b@, ls, 0)
    };
    proof {
        lemma_first_line(ls, 1, |x: (int, int)| is_dashes(b@, x));
    }
    if dash && n > 1 {
        let mut k: usize = 1;
        while k < n && !crate::note::is_dash_line_exec(b, lines[k].0, lines[k].1)
            invariant
                1 <= k <= n,
                n == ls.len(),
            n == lines@.len(),
                n == lines@.len(),
                forall|i: int| 0 <= i < n ==> (#[trigger] lines@[i]).0 as int == ls[i].0 && lines@[i].1 as int == ls[i].1,
                forall|i: int| 0 <= i < n ==> 0 <= (#[trigger] ls[i]).0 <= ls[i].1 <= b@.len(),
                kf == first_line(ls, 1, |x: (int, int)| is_dashes(b@, x)),
                kf == first_line(ls, k as int, |x: (int, int)| is_dashes(b@, x)),
            decreases n - k,
        {
            k = k + 1;
        }
        if k < n {
            blocks.push(block_of(source, 0, lines[k].1));
            index = k + 1;
        }
    }
    assert(block_ranges(blocks@) + blocks_from(b@, ls, index as int) == target) by {
        if blocks@.len() == 0 {
            assert(block_ranges(blocks@) + blocks_from(b@, ls, index as int) =~= blocks_from(b@, ls, index as int));
        }
    }
    while index < n
        invariant
            index <= n,
            n == ls.len(),
            n == lines@.len(),
            b@ == source.spec_bytes(),
            valid_utf8(b@),
            forall|i: int| 0 <= i < n ==> (#[trigger] lines@[i]).0 as int == ls[i].0 && lines@[i].1 as int == ls[i].1,
            forall|i: int| 0 <= i < n ==> 0 <= (#[trigger] ls[i]).0 <= ls[i].1 <= b@.len() && is_char_boundary(b@, ls[i].0) && is_char_boundary(b@, ls[i].1),
            forall|i: int, j: int| 0 <= i < j < n ==> (#[trigger] ls[i]).1 <= (#[trigger] ls[j]).0,
            block_ranges(blocks@) + blocks_from(b@, ls, index as int) == target,
            forall|i: int| 0 <= i < blocks@.len() ==> utf8_bytes((#[trigger] blocks@[i]).text@) == b@.subrange(
                blocks@[i].range.start as int,
                blocks@[i].range.end as int,
            ),
        decreases n - index,
    {
        let start = index;
        let r = lines[index];
        let (blank, heading, fence, table, list) = line_kind(b, r);
        proof {
            lemma_first_line(ls, start + 1, |x: (int, int)| s_fence(b@, x));
            lemma_first_line(ls, start + 1, |x: (int, int)| !s_table(b@, x));
            lemma_first_line(ls, start + 1, |x: (int, int)| !t_list(b@, x));
            lemma_first_line(ls, start + 1, |x: (int, int)| para_stop(b@, x));
        }
        if blank || heading {
            index = index + 1;
        } else if fence {
            index = index + 1;
            while index < n && !s_fence_exec(b, lines[index])
                invariant
                    start < index <= n,
                    n == ls.len(),
                    n == lines@.len(),
            n == lines@.len(),
                n == lines@.len(),
                    forall|i: int| 0 <= i < n ==> (#[trigger] lines@[i]).0 as int == ls[i].0 && lines@[i].1 as int == ls[i].1,
                    forall|i: int| 0 <= i < n ==> 0 <= (#[trigger] ls[i]).0 <= ls[i].1 <= b@.len(),
                    first_line(ls, start + 1, |x: (int, int)| s_fence(b@, x)) == first_line(ls, index as int, |x: (int, int)| s_fence(b@, x)),
                decreases n - index,
            {
                index = index + 1;
            }
            if index < n {
                index = index + 1;
            }
        } else if table {
            index = index + 1;
            while index < n && s_table_exec(b, lines[index])
                invariant
                    start < index <= n,
                    n == ls.len(),
                    n == lines@.len(),
            n == lines@.len(),
                n == lines@.len(),
                    forall|i: int| 0 <= i < n ==> (#[trigger] lines@[i]).0 as int == ls[i].0 && lines@[i].1 as int == ls[i].1,
                    forall|i: int| 0 <= i < n ==> 0 <= (#[trigger] ls[i]).0 <= ls[i].1 <= b@.len(),
                    first_line(ls, start + 1, |x: (int, int)| !s_table(b@, x)) == first_line(ls, index as int, |x: (int, int)| !s_table(b@, x)),
                decreases n - index,
            {
                index = index + 1;
            }
        } else if list {
            index = index + 1;
            while index < n && list_exec(b, lines[index])
                invariant
                    start < index <= n,
                    n == ls.len(),
                    n == lines@.len(),
            n == lines@.len(),
                n == lines@.len(),
                    forall|i: int| 0 <= i < n ==> (#[trigger] lines@[i]).0 as int == ls[i].0 && lines@[i].1 as int == ls[i].1,
                    forall|i: int| 0 <= i < n ==> 0 <= (#[trigger] ls[i]).0 <= ls[i].1 <= b@.len(),
                    first_line(ls, start + 1, |x: (int, int)| !t_list(b@, x)) == first_line(ls, index as int, |x: (int, int)| !t_list(b@, x)),
                decreases n - index,
            {
                index = index + 1;
            }
        } else {
            index = index + 1;
            while index < n && !para_stop_exec(b, lines[index])
                invariant
                    start < index <= n,
                    n == ls.len(),
                    n == lines@.len(),
            n == lines@.len(),
                n == lines@.len(),
                    forall|i: int| 0 <= i < n ==> (#[trigger] lines@[i]).0 as int == ls[i].0 && lines@[i].1 as int == ls[i].1,
                    forall|i: int| 0 <= i < n ==> 0 <= (#[trigger] ls[i]).0 <= ls[i].1 <= b@.len(),
                    first_line(ls, start + 1, |x: (int, int)| para_stop(b@, x)) == first_line(ls, index as int, |x: (int, int)| para_stop(b@, x)),
                decreases n - index,
            {
                index = index + 1;
            }
        }
        proof {
            assert(ls[start as int] == (r.0 as int, r.1 as int));
            if start < index - 1 {
                assert(ls[start as int].1 <= ls[index - 1].0);
            }
        }
        let m = block_of(source, lines[start].0, lines[index - 1].1);
        let ghost before = blocks@;
        blocks.push(m);
        proof {
            assert(block_ranges(blocks@) =~= block_ranges(before).push((ls[start as int].0, ls[index - 1].1)));
            assert(blocks_from(b@, ls, start as int) == seq![(ls[start as int].0, ls[index - 1].1)] + blocks_from(b@, ls, index as int));
            assert(block_ranges(blocks@) + blocks_from(b@, ls, index as int) =~= block_ranges(before) + blocks_from(b@, ls, start as int));
        }
    }
    assert(block_ranges(blocks@) + blocks_from(b@, ls, index as int) =~= block_ranges(blocks@));
    if blocks.len() == 0 {
        blocks.push(block_of(source, 0, b.len()));
        assert(block_ranges(blocks@) =~= seq![(0int, b@.len() as int)]);
    }
    blocks
}

// ---------------------------------------------------------------------------
// Live preview
// ---------------------------------------------------------------------------
/// Position of the first block whose range holds `offset`, from `i` on, or `-1`.
pub open spec fn block_holding(rs: Seq<(int, int)>, offset: int, i: int) -> int
    decreases rs.len() - i,
{
    if i < 0 || i >= rs.len() {
        -1
    } else if rs[i].0 <= offset < rs[i].1 {
        i
    } else {
        block_holding(rs, offset, i + 1)
    }
}

/// The block to open for editing when jumping to byte `offset`: the block
/// that holds it, else the last block (none when there are no blocks).
pub fn block_at_offset(blocks: &[MarkdownBlock], offset: usize) -> (r: Option<usize>)
    ensures
        ({
            let f = block_holding(block_ranges(blocks@), offset as int, 0);
            r == if f != -1 {
                Some(f as usize)
            } else if blocks@.len() > 0 {
                Some((blocks@.len() - 1) as usize)
            } else {
                None::<usize>
            }
        }),
{
    let ghost rs = block_ranges(blocks@);
    let mut i: usize = 0;
    while i < blocks.len()
        invariant
            0 <= i <= blocks@.len(),
            rs == block_ranges(blocks@),
            rs.len() == blocks@.len(),
            block_holding(rs, offset as int, 0) == block_holding(rs, offset as int, i as int),
        decreases blocks@.len() - i,
    {
        assert(rs[i as int] == (blocks@[i as int].range.start as int, blocks@[i as int].range.end as int));
        if blocks[i].range.start <= offset && offset < blocks[i].range.end {
            return Some(i);
        }
        i = i + 1;
    }
    if blocks.len() > 0 {
        Some(blocks.len() - 1)
    } else {
        None
    }
}

/// Replaces the bytes `start..end` of `source` (a block being edited) with `text`.
pub fn replace_block_text(source: &mut String, start: usize, end: usize, text: &str)
    requires
        start <= end <= utf8_bytes(old(source)@).len(),
        is_char_boundary(utf8_bytes(old(source)@), start as int),
        is_char_boundary(utf8_bytes(old(source)@), end as int),
    ensures
        utf8_bytes(final(source)@) == utf8_bytes(old(source)@).subrange(0, start as int) + text.spec_bytes()
            + utf8_bytes(old(source)@).subrange(end as int, utf8_bytes(old(source)@).len() as int),
{
    let src = source.as_str();
    let n = src.as_bytes().len();
    proof {
        lemma_str_valid(src);
        is_char_boundary_start_end_of_seq(src.spec_bytes());
    }
    let mut out = String::new();
    assert(utf8_bytes(out@) =~= Seq::<u8>::empty());
    push_str(&mut out, str_slice(src, 0, start));
    push_str(&mut out, text);
    push_str(&mut out, str_slice(src, end, n));
    *source = out;
}

/// The note a clicked in-app link points at: the link with the note scheme
/// removed, or none for any other link.
pub fn note_link_target(url: &str) -> (r: Option<String>)
    ensures
        ({
            let b = url.spec_bytes();
            let n = scheme_bytes().len();
            match r {
                Some(t) => n <= b.len() && b.subrange(0, n as int) == scheme_bytes() && utf8_bytes(t@)
                    == b.subrange(n as int, b.len() as int),
                None => !(n <= b.len() && b.subrange(0, n as int) == scheme_bytes()),
            }
        }),
{
    let b = url.as_bytes();
    let scheme = NOTE_LINK_SCHEME.as_bytes();
    proof {
        lemma_scheme();
        lemma_str_valid(url);
    }
    if b.len() < scheme.len() {
        return None;
    }
    let mut i: usize = 0;
    while i < scheme.len()
        invariant
            0 <= i <= scheme@.len() <= b@.len(),
            b@ == url.spec_bytes(),
            scheme@ == scheme_bytes(),
            forall|j: int| 0 <= j < i ==> b@[j] == scheme@[j],
        decreases scheme@.len() - i,
    {
        if b[i] != scheme[i] {
            assert(b@.subrange(0, scheme@.len() as int)[i as int] != scheme_bytes()[i as int]);
            assert(b@.subrange(0, scheme_bytes().len() as int) != scheme_bytes());
            return None;
        }
        i = i + 1;
    }
    assert(b@.subrange(0, scheme@.len() as int) =~= scheme_bytes());
    proof {
        assert forall|j: int| 0 <= j < scheme@.len() implies scheme_bytes()[j] < 0x80 by {}
        crate::text::lemma_after_ascii(b@, scheme@.len() - 1);
    }
    Some(owned_slice(url, scheme.len(), b.len()))
}

/// The preview of one block: its text rewritten (see
/// [`crate::preview::transform_wiki_links`]) and the note links in it.
pub fn render_block_preview(text: &str, image_paths: &[Option<String>]) -> (r: CachedBlockPreview)
    ensures
        utf8_bytes(r.transformed@) == crate::preview::preview(text.spec_bytes(), crate::preview::paths_view(image_paths@)).0,
        strings_bytes(r.link_targets@) == dedup_first(link_scan(utf8_bytes(r.transformed@), 0)),
{
    let transformed = crate::preview::transform_wiki_links(text, image_paths);
    let link_targets = extract_note_link_targets(transformed.as_str());
    CachedBlockPreview { transformed, link_targets }
}

} // verus!
