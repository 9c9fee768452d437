//! Keyword search over parsed notes with tag, file name and field filters.
//!
//! Text is compared case-insensitively through Unicode lower-casing. The
//! ranking is deterministic: higher scores first, then note identifier order.
use vstd::prelude::*;
use vstd::string::*;
use crate::folder::NoteId;
use crate::note::{MarkdownNote, MetadataValue, ValueView, lookup, fields_view, tag_names};
use crate::analysis::{NoteAnalysis, merged_tags, fold_names, note_fm_tags, inline_tags_of};
use crate::path::{comps_order, strings_bytes};
use crate::index::{id_pair, note_ids};
use crate::text::push_str;
use crate::text::{
    utf8_bytes, find_within, skip_ws, ws_len_at, find_within_exec, skip_ws_exec, ws_len_at_exec,
    lemma_find_within, to_owned_string,
};

verus! {

broadcast use vstd::seq::group_seq_axioms;

// ---------------------------------------------------------------------------
// Lower-casing and matching
// ---------------------------------------------------------------------------
/// The UTF-8 encoding of the Unicode lower-case form of the text `s`, as
/// `str::to_lowercase` computes it.
pub uninterp spec fn lowercase(s: Seq<u8>) -> Seq<u8>;

/// Lower-cases `s` with `str::to_lowercase`. Its result is named by
/// `lowercase`: the same text always gives the same result; nothing more is
/// claimed about the Unicode case tables.
#[verifier::external_body]
pub(crate) fn to_lower(s: &str) -> (r: String)
    ensures
        utf8_bytes(r@) == lowercase(s.spec_bytes()),
{
    s.to_lowercase()
}

/// Whether `n` occurs in `h`.
pub open spec fn contains_bytes(h: Seq<u8>, n: Seq<u8>) -> bool {
    find_within(h, 0, h.len() as int, n) != -1
}

/// Case-insensitive substring test.
pub open spec fn contains_norm(v: Seq<u8>, n: Seq<u8>) -> bool {
    contains_bytes(lowercase(v), lowercase(n))
}

/// Case-insensitive equality.
pub open spec fn eq_norm(a: Seq<u8>, b: Seq<u8>) -> bool {
    lowercase(a) == lowercase(b)
}

fn contains_exec(h: &str, n: &str) -> (r: bool)
    ensures
        r == contains_bytes(h.spec_bytes(), n.spec_bytes()),
{
    let hb = h.as_bytes();
    find_within_exec(hb, 0, hb.len(), n.as_bytes()).is_some()
}

/// Whether `n` occurs in `h`.
pub(crate) fn contains_exec_pub(h: &str, n: &str) -> (r: bool)
    ensures
        r == contains_bytes(h.spec_bytes(), n.spec_bytes()),
{
    contains_exec(h, n)
}

fn contains_normalized(v: &str, n: &str) -> (r: bool)
    ensures
        r == contains_norm(v.spec_bytes(), n.spec_bytes()),
{
    let a = to_lower(v);
    let b = to_lower(n);
    contains_exec(a.as_str(), b.as_str())
}

fn equals_normalized(x: &str, y: &str) -> (r: bool)
    ensures
        r == eq_norm(x.spec_bytes(), y.spec_bytes()),
{
    let a = to_lower(x);
    let b = to_lower(y);
    crate::text::bytes_eq(a.as_str().as_bytes(), b.as_str().as_bytes())
}

// ---------------------------------------------------------------------------
// Query terms
// ---------------------------------------------------------------------------
/// End of the word starting at `p`: the next whitespace character or the end.
pub open spec fn word_end(b: Seq<u8>, p: int) -> int
    decreases b.len() - p,
{
    if p < 0 || p >= b.len() || ws_len_at(b, p) > 0 {
        p
    } else {
        word_end(b, p + 1)
    }
}

/// The whitespace-separated words of `b[p..]` (`str::split_whitespace`).
pub open spec fn words_from(b: Seq<u8>, p: int) -> Seq<Seq<u8>>
    decreases b.len() - p,
{
    let a = skip_ws(b, p, b.len() as int);
    if p < 0 || p > b.len() || a >= b.len() || a < p {
        Seq::empty()
    } else {
        proof {
            lemma_word_end(b, a + 1);
        }
        seq![b.subrange(a, word_end(b, a + 1))] + words_from(b, word_end(b, a + 1))
    }
}

pub proof fn lemma_word_end(b: Seq<u8>, p: int)
    requires
        0 <= p <= b.len(),
    ensures
        p <= word_end(b, p) <= b.len(),
        forall|j: int| p <= j < word_end(b, p) ==> ws_len_at(b, j) == 0,
        word_end(b, p) < b.len() ==> ws_len_at(b, word_end(b, p)) > 0,
    decreases b.len() - p,
{
    if p < b.len() && ws_len_at(b, p) == 0 {
        lemma_word_end(b, p + 1);
    }
}

/// The search terms of a query text: its words, lower-cased.
pub open spec fn terms_of(text: Seq<u8>) -> Seq<Seq<u8>> {
    words_from(text, 0).map_values(|w: Seq<u8>| lowercase(w))
}


fn words_exec(s: &str) -> (r: Vec<String>)
    ensures
        strings_bytes(r@) == words_from(s.spec_bytes(), 0),
{
    let b = s.as_bytes();
    let n = b.len();
    proof {
        crate::text::lemma_str_valid(s);
    }
    let mut out: Vec<String> = Vec::new();
    let mut p: usize = 0;
    loop
        invariant
            p <= n,
            n == b@.len(),
            b@ == s.spec_bytes(),
            vstd::utf8::valid_utf8(b@),
            vstd::utf8::is_char_boundary(b@, p as int),
            words_from(b@, 0) == strings_bytes(out@) + words_from(b@, p as int),
        decreases n - p,
    {
        let a = skip_ws_exec(b, p, n);
        proof {
            crate::text::lemma_skip_ws_boundary(b@, p as int, n as int);
        }
        if a >= n {
            assert(words_from(b@, p as int) =~= Seq::<Seq<u8>>::empty());
            assert(strings_bytes(out@) + words_from(b@, p as int) =~= strings_bytes(out@));
            return out;
        }
        let mut e = a + 1;
        proof {
            lemma_word_end(b@, a + 1);
        }
        while e < n && ws_len_at_exec(b, e) == 0
            invariant
                a < e <= n,
                n == b@.len(),
                word_end(b@, a + 1) == word_end(b@, e as int),
            decreases n - e,
        {
            e = e + 1;
        }
        proof {
            // the word ends at a whitespace character or at the end, both boundaries
            if e < n {
                assert(ws_len_at(b@, e as int) > 0);
                lemma_ws_start_boundary(b@, e as int);
            } else {
                vstd::utf8::is_char_boundary_start_end_of_seq(b@);
            }
        }
        let w = crate::text::owned_slice(s, a, e);
        let ghost before = out@;
        out.push(w);
        proof {
            crate::path::lemma_strings_bytes_push(before, w);
            assert(strings_bytes(out@) + words_from(b@, e as int) =~= strings_bytes(before) + words_from(
                b@,
                p as int,
            ));
        }
        p = e;
    }
}

/// A whitespace character starts at a boundary.
proof fn lemma_ws_start_boundary(b: Seq<u8>, i: int)
    requires
        vstd::utf8::valid_utf8(b),
        0 <= i < b.len(),
        ws_len_at(b, i) > 0,
    ensures
        vstd::utf8::is_char_boundary(b, i),
{
    crate::text::lemma_boundary_at(b, i);
}

// ---------------------------------------------------------------------------
// Queries
// ---------------------------------------------------------------------------
/// Keyword search query with optional filters.
#[derive(Debug, Clone, PartialEq, Eq, Default)]
pub struct SearchQuery {
    text: String,
    required_tags: Vec<String>,
    file_name: Option<String>,
    required_fields: Vec<(String, String)>,
}

pub open spec fn opt_bytes(o: Option<String>) -> Option<Seq<u8>> {
    match o {
        None => None,
        Some(s) => Some(utf8_bytes(s@)),
    }
}

pub open spec fn pairs_bytes(v: Seq<(String, String)>) -> Seq<(Seq<u8>, Seq<u8>)> {
    v.map_values(|p: (String, String)| (utf8_bytes(p.0@), utf8_bytes(p.1@)))
}

impl SearchQuery {
    /// The query text.
    pub closed spec fn text_v(&self) -> Seq<u8> {
        utf8_bytes(self.text@)
    }

    /// The tags a result must have.
    pub closed spec fn tags_v(&self) -> Seq<Seq<u8>> {
        strings_bytes(self.required_tags@)
    }

    /// The text the file name must contain, if any.
    pub closed spec fn file_v(&self) -> Option<Seq<u8>> {
        opt_bytes(self.file_name)
    }

    /// The `(key, value)` fields a result must have.
    pub closed spec fn fields_v(&self) -> Seq<(Seq<u8>, Seq<u8>)> {
        pairs_bytes(self.required_fields@)
    }

    /// Builds an empty query that can be used with filters.
    pub fn empty() -> (r: SearchQuery)
        ensures
            r.text_v().len() == 0,
            r.tags_v().len() == 0,
            r.file_v() is None,
            r.fields_v().len() == 0,
    {
        let text = String::new();
        proof {
            assert(utf8_bytes(text@) =~= Seq::<u8>::empty());
        }
        SearchQuery { text, required_tags: Vec::new(), file_name: None, required_fields: Vec::new() }
    }

    /// Builds a query for lexical text matching.
    pub fn text(text: &str) -> (r: SearchQuery)
        ensures
            r.text_v() == text.spec_bytes(),
            r.tags_v().len() == 0,
            r.file_v() is None,
            r.fields_v().len() == 0,
    {
        SearchQuery {
            text: to_owned_string(text),
            required_tags: Vec::new(),
            file_name: None,
            required_fields: Vec::new(),
        }
    }

    /// Requires the note to have the given tag.
    pub fn with_tag(self, tag: &str) -> (r: SearchQuery)
        ensures
            r.text_v() == self.text_v(),
            r.tags_v() == self.tags_v().push(tag.spec_bytes()),
            r.file_v() == self.file_v(),
            r.fields_v() == self.fields_v(),
    {
        let mut q = self;
        let t = to_owned_string(tag);
        let ghost before = q.required_tags@;
        q.required_tags.push(t);
        proof {
            crate::path::lemma_strings_bytes_push(before, t);
        }
        q
    }

    /// Requires the note's relative path to contain the given text.
    pub fn with_file_name(self, file_name: &str) -> (r: SearchQuery)
        ensures
            r.text_v() == self.text_v(),
            r.tags_v() == self.tags_v(),
            r.file_v() == Some(file_name.spec_bytes()),
            r.fields_v() == self.fields_v(),
    {
        let mut q = self;
        q.file_name = Some(to_owned_string(file_name));
        q
    }

    /// Requires the note to have a frontmatter field with the given value.
    pub fn with_field(self, key: &str, value: &str) -> (r: SearchQuery)
        ensures
            r.text_v() == self.text_v(),
            r.tags_v() == self.tags_v(),
            r.file_v() == self.file_v(),
            r.fields_v() == self.fields_v().push((key.spec_bytes(), value.spec_bytes())),
    {
        let mut q = self;
        let p = (to_owned_string(key), to_owned_string(value));
        let ghost before = q.required_fields@;
        q.required_fields.push(p);
        assert(pairs_bytes(q.required_fields@) =~= pairs_bytes(before).push((key.spec_bytes(), value.spec_bytes())));
        q
    }

    pub fn terms(&self) -> (r: Vec<String>)
        ensures
            strings_bytes(r@) == terms_of(self.text_v()),
    {
        let words = words_exec(self.text.as_str());
        let ghost ws = strings_bytes(words@);
        let mut out: Vec<String> = Vec::new();
        let mut i: usize = 0;
        while i < words.len()
            invariant
                0 <= i <= words@.len(),
                ws == strings_bytes(words@),
                ws == words_from(self.text_v(), 0),
                strings_bytes(out@) == ws.take(i as int).map_values(|w: Seq<u8>| lowercase(w)),
            decreases words@.len() - i,
        {
            let l = to_lower(words[i].as_str());
            let ghost before = out@;
            out.push(l);
            proof {
                crate::path::lemma_strings_bytes_push(before, l);
                assert(ws.take(i + 1).map_values(|w: Seq<u8>| lowercase(w)) =~= ws.take(i as int).map_values(
                    |w: Seq<u8>| lowercase(w),
                ).push(lowercase(ws[i as int])));
            }
            i = i + 1;
        }
        assert(ws.take(i as int) =~= ws);
        out
    }
}


// ---------------------------------------------------------------------------
// Documents and scoring
// ---------------------------------------------------------------------------
/// What search uses of a note: its path components, its relative path, its
/// `title`, its merged tags, its frontmatter fields and its body.
pub type DocView = (
    Seq<Seq<u8>>,
    Seq<u8>,
    Option<Seq<u8>>,
    Seq<Seq<u8>>,
    Seq<(Seq<u8>, ValueView)>,
    Seq<u8>,
);

/// The key `title`.
pub open spec fn title_key() -> Seq<u8> {
    seq![0x74u8, 0x69, 0x74, 0x6C, 0x65]
}

/// The search document of a note.
pub open spec fn doc_of(n: MarkdownNote) -> DocView {
    (
        n.id().key(),
        n.id().path(),
        match n.fm() {
            Some(f) => match lookup(f, title_key()) {
                Some(ValueView::Scalar(t)) => Some(t),
                _ => None,
            },
            None => None,
        },
        fold_names(note_fm_tags(n) + inline_tags_of(n.body_bytes())),
        match n.fm() {
            Some(f) => f,
            None => Seq::empty(),
        },
        n.body_bytes(),
    )
}

/// Whether some item of `v` contains `t`, ignoring case.
pub open spec fn any_contains(v: Seq<Seq<u8>>, t: Seq<u8>) -> bool
    decreases v.len(),
{
    v.len() > 0 && (any_contains(v.drop_last(), t) || contains_norm(v.last(), t))
}

/// Whether some item of `v` equals `x`, ignoring case.
pub open spec fn any_eq(v: Seq<Seq<u8>>, x: Seq<u8>) -> bool
    decreases v.len(),
{
    v.len() > 0 && (any_eq(v.drop_last(), x) || eq_norm(v.last(), x))
}

pub open spec fn field_contains(k: Seq<u8>, v: ValueView, t: Seq<u8>) -> bool {
    contains_norm(k, t) || match v {
        ValueView::Scalar(s) => contains_norm(s, t),
        ValueView::List(items) => any_contains(items, t),
    }
}

/// Whether some field mentions `t` in its key or value.
pub open spec fn any_field_contains(fs: Seq<(Seq<u8>, ValueView)>, t: Seq<u8>) -> bool
    decreases fs.len(),
{
    fs.len() > 0 && (any_field_contains(fs.drop_last(), t) || field_contains(fs.last().0, fs.last().1, t))
}

pub open spec fn value_matches(v: ValueView, want: Seq<u8>) -> bool {
    match v {
        ValueView::Scalar(s) => eq_norm(s, want),
        ValueView::List(items) => any_eq(items, want),
    }
}

/// Whether some field has key `k` and a value matching `want`.
pub open spec fn has_field(fs: Seq<(Seq<u8>, ValueView)>, k: Seq<u8>, want: Seq<u8>) -> bool
    decreases fs.len(),
{
    fs.len() > 0 && (has_field(fs.drop_last(), k, want) || (eq_norm(fs.last().0, k) && value_matches(
        fs.last().1,
        want,
    )))
}

/// Whether every required tag is among `tags`, ignoring case.
pub open spec fn all_tags_present(tags: Seq<Seq<u8>>, req: Seq<Seq<u8>>) -> bool
    decreases req.len(),
{
    req.len() == 0 || (all_tags_present(tags, req.drop_last()) && any_eq(tags, req.last()))
}

/// Whether every required field is present.
pub open spec fn all_fields_present(fs: Seq<(Seq<u8>, ValueView)>, req: Seq<(Seq<u8>, Seq<u8>)>) -> bool
    decreases req.len(),
{
    req.len() == 0 || (all_fields_present(fs, req.drop_last()) && has_field(fs, req.last().0, req.last().1))
}

/// The score of one term: 50 in the title, 40 in the path, 30 in a tag, 20 in
/// a field, 10 in the body.
pub open spec fn term_score(d: DocView, t: Seq<u8>) -> int {
    (if d.2 matches Some(title) && contains_norm(title, t) { 50int } else { 0int })
        + (if contains_norm(d.1, t) { 40int } else { 0int })
        + (if any_contains(d.3, t) { 30int } else { 0int })
        + (if any_field_contains(d.4, t) { 20int } else { 0int })
        + (if contains_norm(d.5, t) { 10int } else { 0int })
}

/// The total score of all terms.
pub open spec fn doc_score(d: DocView, terms: Seq<Seq<u8>>) -> int
    decreases terms.len(),
{
    if terms.len() == 0 {
        0
    } else {
        doc_score(d, terms.drop_last()) + term_score(d, terms.last())
    }
}

/// Whether a document passes the filters of a query.
pub open spec fn matches_filters(
    d: DocView,
    file: Option<Seq<u8>>,
    tags: Seq<Seq<u8>>,
    fields: Seq<(Seq<u8>, Seq<u8>)>,
) -> bool {
    &&& file matches Some(f) ==> contains_norm(d.1, f)
    &&& all_tags_present(d.3, tags)
    &&& all_fields_present(d.4, fields)
}

/// The score of a matching document: 1 without terms, else the sum of the
/// term scores (capped at `u32::MAX`); none when the sum is zero.
pub open spec fn result_score(d: DocView, terms: Seq<Seq<u8>>) -> Option<int> {
    if terms.len() == 0 {
        Some(1)
    } else if doc_score(d, terms) > 0 {
        Some(if doc_score(d, terms) > u32::MAX { u32::MAX as int } else { doc_score(d, terms) })
    } else {
        None
    }
}


/// Inserts `x` after every document whose path is not greater.
pub open spec fn insert_doc(s: Seq<DocView>, x: DocView) -> Seq<DocView>
    decreases s.len(),
{
    if s.len() == 0 {
        seq![x]
    } else if comps_order(x.0, s[0].0) < 0 {
        seq![x] + s
    } else {
        seq![s[0]] + insert_doc(s.drop_first(), x)
    }
}

/// Documents stably sorted by path.
pub open spec fn sort_docs(s: Seq<DocView>) -> Seq<DocView>
    decreases s.len(),
{
    if s.len() == 0 {
        Seq::empty()
    } else {
        insert_doc(sort_docs(s.drop_last()), s.last())
    }
}

/// The search documents of notes, sorted by note identifier.
pub open spec fn docs_of(ns: Seq<MarkdownNote>) -> Seq<DocView> {
    sort_docs(ns.map_values(|n: MarkdownNote| doc_of(n)))
}

/// The matching documents with their scores, in document order.
pub open spec fn hits(
    docs: Seq<DocView>,
    terms: Seq<Seq<u8>>,
    file: Option<Seq<u8>>,
    tags: Seq<Seq<u8>>,
    fields: Seq<(Seq<u8>, Seq<u8>)>,
) -> Seq<(Seq<Seq<u8>>, int)>
    decreases docs.len(),
{
    if docs.len() == 0 {
        Seq::empty()
    } else {
        let rest = hits(docs.drop_last(), terms, file, tags, fields);
        let d = docs.last();
        if matches_filters(d, file, tags, fields) && result_score(d, terms) is Some {
            rest.push((d.0, result_score(d, terms)->0))
        } else {
            rest
        }
    }
}

/// Whether `x` ranks before `y`: a higher score, or the same score and a
/// smaller note identifier.
pub open spec fn ranks_before(x: (Seq<Seq<u8>>, int), y: (Seq<Seq<u8>>, int)) -> bool {
    x.1 > y.1 || (x.1 == y.1 && comps_order(x.0, y.0) < 0)
}

pub open spec fn insert_hit(s: Seq<(Seq<Seq<u8>>, int)>, x: (Seq<Seq<u8>>, int)) -> Seq<(Seq<Seq<u8>>, int)>
    decreases s.len(),
{
    if s.len() == 0 {
        seq![x]
    } else if ranks_before(x, s[0]) {
        seq![x] + s
    } else {
        seq![s[0]] + insert_hit(s.drop_first(), x)
    }
}

/// Hits stably sorted by rank.
pub open spec fn rank(s: Seq<(Seq<Seq<u8>>, int)>) -> Seq<(Seq<Seq<u8>>, int)>
    decreases s.len(),
{
    if s.len() == 0 {
        Seq::empty()
    } else {
        insert_hit(rank(s.drop_last()), s.last())
    }
}

/// Whether no hit of `s` ranks before an earlier one.
pub open spec fn ranked(s: Seq<(Seq<Seq<u8>>, int)>) -> bool {
    forall|i: int, j: int| 0 <= i < j < s.len() ==> !ranks_before(#[trigger] s[j], #[trigger] s[i])
}

proof fn lemma_ranks_before_order(x: (Seq<Seq<u8>>, int), y: (Seq<Seq<u8>>, int), z: (Seq<Seq<u8>>, int))
    ensures
        !(ranks_before(x, y) && ranks_before(y, x)),
        ranks_before(x, y) && ranks_before(y, z) ==> ranks_before(x, z),
{
    crate::path::lemma_comps_order(x.0, y.0);
    if ranks_before(x, y) && ranks_before(y, z) && x.1 == y.1 && y.1 == z.1 {
        crate::path::lemma_comps_order_trans(x.0, y.0, z.0, 0);
    }
}

proof fn lemma_insert_hit_ranked(s: Seq<(Seq<Seq<u8>>, int)>, x: (Seq<Seq<u8>>, int))
    requires
        ranked(s),
    ensures
        ranked(insert_hit(s, x)),
        insert_hit(s, x).len() == s.len() + 1,
        forall|k: int| 0 <= k < insert_hit(s, x).len() ==> #[trigger] insert_hit(s, x)[k] == x || s.contains(
            insert_hit(s, x)[k],
        ),
    decreases s.len(),
{
    let r = insert_hit(s, x);
    if s.len() == 0 {
    } else if ranks_before(x, s[0]) {
        assert(r == seq![x] + s);
        assert forall|i: int, j: int| 0 <= i < j < r.len() implies !ranks_before(#[trigger] r[j], #[trigger] r[i]) by {
            if i == 0 {
                lemma_ranks_before_order(r[j], x, s[0]);
                if j > 1 {
                    assert(!ranks_before(s[j - 1], s[0]));
                }
            } else {
                assert(r[i] == s[i - 1] && r[j] == s[j - 1]);
            }
        }
        assert forall|k: int| 0 <= k < r.len() implies #[trigger] r[k] == x || s.contains(r[k]) by {
            if k > 0 {
                assert(r[k] == s[k - 1]);
            }
        }
    } else {
        let t = s.drop_first();
        assert(ranked(t)) by {
            assert forall|i: int, j: int| 0 <= i < j < t.len() implies !ranks_before(#[trigger] t[j], #[trigger] t[i]) by {
                assert(t[i] == s[i + 1] && t[j] == s[j + 1]);
            }
        }
        lemma_insert_hit_ranked(t, x);
        let q = insert_hit(t, x);
        assert(r == seq![s[0]] + q);
        assert forall|i: int, j: int| 0 <= i < j < r.len() implies !ranks_before(#[trigger] r[j], #[trigger] r[i]) by {
            if i == 0 {
                assert(r[j] == q[j - 1]);
                if q[j - 1] != x {
                    assert(t.contains(q[j - 1]));
                    let w = choose|w: int| 0 <= w < t.len() && t[w] == q[j - 1];
                    assert(s[w + 1] == t[w]);
                }
            } else {
                assert(r[i] == q[i - 1] && r[j] == q[j - 1]);
            }
        }
        assert forall|k: int| 0 <= k < r.len() implies #[trigger] r[k] == x || s.contains(r[k]) by {
            if k == 0 {
                assert(s[0] == r[0]);
            } else {
                assert(r[k] == q[k - 1]);
                if q[k - 1] != x {
                    let w = choose|w: int| 0 <= w < t.len() && t[w] == q[k - 1];
                    assert(s[w + 1] == t[w]);
                }
            }
        }
    }
}

/// Search results come best first: no result ranks before an earlier one,
/// a higher score coming first and equal scores going by note identifier.
pub proof fn lemma_search_results_ranked(s: Seq<(Seq<Seq<u8>>, int)>)
    ensures
        ranked(rank(s)),
        rank(s).len() == s.len(),
    decreases s.len(),
{
    if s.len() > 0 {
        lemma_search_results_ranked(s.drop_last());
        lemma_insert_hit_ranked(rank(s.drop_last()), s.last());
    }
}

proof fn lemma_insert_hit_contains(s: Seq<(Seq<Seq<u8>>, int)>, x: (Seq<Seq<u8>>, int), y: (Seq<Seq<u8>>, int))
    ensures
        insert_hit(s, x).contains(y) <==> s.contains(y) || y == x,
    decreases s.len(),
{
    let r = insert_hit(s, x);
    if s.len() == 0 {
        assert(r[0] == x);
    } else {
        let t = s.drop_first();
        if ranks_before(x, s[0]) {
            assert(r =~= seq![x] + s);
            assert(r[0] == x);
            if s.contains(y) {
                let j = choose|j: int| 0 <= j < s.len() && s[j] == y;
                assert(r[j + 1] == y);
            }
            if r.contains(y) && y != x {
                let j = choose|j: int| 0 <= j < r.len() && r[j] == y;
                assert(s[j - 1] == y);
            }
        } else {
            lemma_insert_hit_contains(t, x, y);
            let it = insert_hit(t, x);
            assert(r =~= seq![s[0]] + it);
            if s.contains(y) {
                let j = choose|j: int| 0 <= j < s.len() && s[j] == y;
                if j > 0 {
                    assert(t[j - 1] == y);
                    let m = choose|m: int| 0 <= m < it.len() && it[m] == y;
                    assert(r[m + 1] == y);
                } else {
                    assert(r[0] == y);
                }
            }
            if y == x {
                let m = choose|m: int| 0 <= m < it.len() && it[m] == y;
                assert(r[m + 1] == y);
            }
            if r.contains(y) {
                let j = choose|j: int| 0 <= j < r.len() && r[j] == y;
                if j > 0 {
                    assert(it[j - 1] == y);
                    if t.contains(y) {
                        let m = choose|m: int| 0 <= m < t.len() && t[m] == y;
                        assert(s[m + 1] == y);
                    }
                } else {
                    assert(s[0] == y);
                }
            }
        }
    }
}

proof fn lemma_rank_contains(s: Seq<(Seq<Seq<u8>>, int)>, y: (Seq<Seq<u8>>, int))
    ensures
        rank(s).contains(y) <==> s.contains(y),
    decreases s.len(),
{
    if s.len() > 0 {
        lemma_rank_contains(s.drop_last(), y);
        lemma_insert_hit_contains(rank(s.drop_last()), s.last(), y);
        if s.drop_last().contains(y) {
            let j = choose|j: int| 0 <= j < s.drop_last().len() && s.drop_last()[j] == y;
            assert(s[j] == y);
        }
        if s.contains(y) && y != s.last() {
            let j = choose|j: int| 0 <= j < s.len() && s[j] == y;
            assert(s.drop_last()[j] == y);
        }
        if y == s.last() {
            assert(s[s.len() - 1] == y);
        }
    }
}

/// Whether the document `d` is a hit of the query: it passes the filters and
/// scores, and `h` is its note with its score.
pub open spec fn is_hit(
    d: DocView,
    h: (Seq<Seq<u8>>, int),
    terms: Seq<Seq<u8>>,
    file: Option<Seq<u8>>,
    tags: Seq<Seq<u8>>,
    fields: Seq<(Seq<u8>, Seq<u8>)>,
) -> bool {
    &&& matches_filters(d, file, tags, fields)
    &&& result_score(d, terms) matches Some(sc) && h == (d.0, sc)
}

proof fn lemma_hits_contains(
    docs: Seq<DocView>,
    terms: Seq<Seq<u8>>,
    file: Option<Seq<u8>>,
    tags: Seq<Seq<u8>>,
    fields: Seq<(Seq<u8>, Seq<u8>)>,
    h: (Seq<Seq<u8>>, int),
)
    ensures
        hits(docs, terms, file, tags, fields).contains(h) <==> exists|i: int|
            0 <= i < docs.len() && is_hit(#[trigger] docs[i], h, terms, file, tags, fields),
    decreases docs.len(),
{
    if docs.len() > 0 {
        let d = docs.drop_last();
        let rest = hits(d, terms, file, tags, fields);
        lemma_hits_contains(d, terms, file, tags, fields, h);
        let l = docs.last();
        let all = hits(docs, terms, file, tags, fields);
        if exists|i: int| 0 <= i < d.len() && is_hit(#[trigger] d[i], h, terms, file, tags, fields) {
            let i = choose|i: int| 0 <= i < d.len() && is_hit(#[trigger] d[i], h, terms, file, tags, fields);
            assert(docs[i] == d[i]);
        }
        if exists|i: int| 0 <= i < docs.len() && is_hit(#[trigger] docs[i], h, terms, file, tags, fields) {
            let i = choose|i: int| 0 <= i < docs.len() && is_hit(#[trigger] docs[i], h, terms, file, tags, fields);
            if i < d.len() {
                assert(d[i] == docs[i]);
            } else {
                assert(docs[i] == l);
            }
        }
        if matches_filters(l, file, tags, fields) && result_score(l, terms) is Some {
            let x = (l.0, result_score(l, terms)->0);
            assert(all == rest.push(x));
            assert(rest.push(x)[rest.len() as int] == x);
            if rest.contains(h) {
                let j = choose|j: int| 0 <= j < rest.len() && rest[j] == h;
                assert(rest.push(x)[j] == h);
            }
            if all.contains(h) && h != x {
                let j = choose|j: int| 0 <= j < all.len() && all[j] == h;
                assert(rest[j] == h);
            }
            if h == x {
                assert(is_hit(docs[docs.len() - 1], h, terms, file, tags, fields));
            }
        } else {
            assert(all == rest);
            assert(!is_hit(l, h, terms, file, tags, fields));
        }
    }
}

/// A note is a search result exactly when it passes the query's filters
/// (file name, tags, fields) and scores: every result is such a note with
/// its score, and every such note is among the results.
pub proof fn lemma_search_results_are_the_hits(
    docs: Seq<DocView>,
    terms: Seq<Seq<u8>>,
    file: Option<Seq<u8>>,
    tags: Seq<Seq<u8>>,
    fields: Seq<(Seq<u8>, Seq<u8>)>,
    h: (Seq<Seq<u8>>, int),
)
    ensures
        rank(hits(docs, terms, file, tags, fields)).contains(h) <==> exists|i: int|
            0 <= i < docs.len() && is_hit(#[trigger] docs[i], h, terms, file, tags, fields),
{
    lemma_rank_contains(hits(docs, terms, file, tags, fields), h);
    lemma_hits_contains(docs, terms, file, tags, fields, h);
}

/// Each item followed by a line break.
pub open spec fn item_lines(items: Seq<Seq<u8>>) -> Seq<u8>
    decreases items.len(),
{
    if items.len() == 0 {
        Seq::empty()
    } else {
        item_lines(items.drop_last()) + items.last() + seq![0x0Au8]
    }
}

/// Each field as lines: its key, then its value or each of its list items.
pub open spec fn field_lines(fields: Seq<(Seq<u8>, ValueView)>) -> Seq<u8>
    decreases fields.len(),
{
    if fields.len() == 0 {
        Seq::empty()
    } else {
        let f = fields.last();
        field_lines(fields.drop_last()) + f.0 + seq![0x0Au8] + match f.1 {
            ValueView::Scalar(v) => v + seq![0x0Au8],
            ValueView::List(vs) => item_lines(vs),
        }
    }
}

/// The text a document is embedded from for local similarity search: its
/// path, title, tags and fields, one per line, then its body.
pub open spec fn embedding_text_of(d: DocView) -> Seq<u8> {
    d.1 + seq![0x0Au8] + match d.2 {
        Some(t) => t + seq![0x0Au8],
        None => Seq::empty(),
    } + item_lines(d.3) + field_lines(d.4) + d.5
}

fn push_line(out: &mut String, piece: &str)
    ensures
        utf8_bytes(final(out)@) == utf8_bytes(old(out)@) + piece.spec_bytes() + seq![0x0Au8],
{
    let nl = "\n";
    proof {
        reveal_strlit("\n");
        crate::text::lemma_ascii_str(nl);
        assert(nl.spec_bytes() =~= seq![0x0Au8]);
    }
    push_str(out, piece);
    push_str(out, nl);
}

fn push_item_lines(out: &mut String, items: &Vec<String>)
    ensures
        utf8_bytes(final(out)@) == utf8_bytes(old(out)@) + item_lines(strings_bytes(items@)),
{
    let ghost is = strings_bytes(items@);
    let ghost o0 = utf8_bytes(out@);
    let mut i: usize = 0;
    assert(is.take(0) =~= Seq::<Seq<u8>>::empty());
    assert(o0 + item_lines(is.take(0)) =~= o0);
    while i < items.len()
        invariant
            0 <= i <= items@.len(),
            is == strings_bytes(items@),
            utf8_bytes(out@) == o0 + item_lines(is.take(i as int)),
        decreases items@.len() - i,
    {
        push_line(out, items[i].as_str());
        assert(is.take(i + 1).drop_last() =~= is.take(i as int));
        assert(is.take(i + 1).last() == is[i as int]);
        assert(utf8_bytes(out@) =~= o0 + item_lines(is.take(i + 1)));
        i = i + 1;
    }
    assert(is.take(i as int) =~= is);
}

/// A searchable note.
struct SearchDocument {
    note_id: NoteId,
    file_name: String,
    title: Option<String>,
    tags: Vec<String>,
    fields: Vec<(String, MetadataValue)>,
    body: String,
}

spec fn doc_view(d: SearchDocument) -> DocView {
    (
        d.note_id.key(),
        utf8_bytes(d.file_name@),
        opt_bytes(d.title),
        strings_bytes(d.tags@),
        fields_view(d.fields@),
        utf8_bytes(d.body@),
    )
}

spec fn docs_view(v: Seq<SearchDocument>) -> Seq<DocView> {
    v.map_values(|d: SearchDocument| doc_view(d))
}

fn doc_from_note(note: &MarkdownNote) -> (d: SearchDocument)
    ensures
        doc_view(d) == doc_of(*note),
        id_pair(d.note_id) == id_pair(note.id()),
{
    let note_id = note.note_id().clone();
    let file_name = to_owned_string(note.note_id().relative_path());
    let key = "title";
    proof {
        reveal_strlit("title");
        crate::text::lemma_ascii_str(key);
        assert(key.spec_bytes() =~= title_key());
    }
    let title: Option<String> = match note.frontmatter() {
        Some(f) => match f.scalar(key) {
            Some(t) => Some(to_owned_string(t)),
            None => None,
        },
        None => None,
    };
    let analysis = NoteAnalysis::from_note(note);
    let merged = merged_tags(note, &analysis);
    let mut tags: Vec<String> = Vec::new();
    let mut i: usize = 0;
    while i < merged.len()
        invariant
            0 <= i <= merged@.len(),
            strings_bytes(tags@) == tag_names(merged@).take(i as int),
        decreases merged@.len() - i,
    {
        let t = to_owned_string(merged[i].name());
        let ghost before = tags@;
        tags.push(t);
        proof {
            crate::path::lemma_strings_bytes_push(before, t);
            assert(tag_names(merged@).take(i + 1) =~= tag_names(merged@).take(i as int).push(
                merged@[i as int].view_bytes(),
            ));
        }
        i = i + 1;
    }
    assert(tag_names(merged@).take(i as int) =~= tag_names(merged@));
    let mut fields: Vec<(String, MetadataValue)> = Vec::new();
    match note.frontmatter() {
        Some(f) => {
            let src = f.fields();
            let mut j: usize = 0;
            while j < src.len()
                invariant
                    0 <= j <= src@.len(),
                    fields@.len() == j,
                    fields_view(fields@) == fields_view(src@).take(j as int),
                decreases src@.len() - j,
            {
                let k = src[j].0.clone();
                let v = src[j].1.clone();
                let ghost before = fields@;
                fields.push((k, v));
                proof {
                    assert(fields@ == before.push((k, v)));
                    assert(fields_view(fields@)[j as int] == fields_view(src@)[j as int]);
                    assert(fields_view(fields@) =~= fields_view(src@).take(j + 1));
                }
                j = j + 1;
            }
            assert(fields_view(src@).take(j as int) =~= fields_view(src@));
        },
        None => {
            assert(fields_view(fields@) =~= Seq::<(Seq<u8>, ValueView)>::empty());
        },
    }
    let body = to_owned_string(note.body());
    SearchDocument { note_id, file_name, title, tags, fields, body }
}

fn any_contains_exec(v: &Vec<String>, t: &str) -> (r: bool)
    ensures
        r == any_contains(strings_bytes(v@), t.spec_bytes()),
{
    let ghost vs = strings_bytes(v@);
    let mut found = false;
    let mut i: usize = 0;
    while i < v.len()
        invariant
            0 <= i <= v@.len(),
            vs == strings_bytes(v@),
            found == any_contains(vs.take(i as int), t.spec_bytes()),
        decreases v@.len() - i,
    {
        assert(vs.take(i + 1).drop_last() =~= vs.take(i as int));
        if !found && contains_normalized(v[i].as_str(), t) {
            found = true;
        }
        i = i + 1;
    }
    assert(vs.take(i as int) =~= vs);
    found
}

fn any_eq_exec(v: &Vec<String>, x: &str) -> (r: bool)
    ensures
        r == any_eq(strings_bytes(v@), x.spec_bytes()),
{
    let ghost vs = strings_bytes(v@);
    let mut found = false;
    let mut i: usize = 0;
    while i < v.len()
        invariant
            0 <= i <= v@.len(),
            vs == strings_bytes(v@),
            found == any_eq(vs.take(i as int), x.spec_bytes()),
        decreases v@.len() - i,
    {
        assert(vs.take(i + 1).drop_last() =~= vs.take(i as int));
        if !found && equals_normalized(v[i].as_str(), x) {
            found = true;
        }
        i = i + 1;
    }
    assert(vs.take(i as int) =~= vs);
    found
}

fn field_contains_exec(k: &String, v: &MetadataValue, t: &str) -> (r: bool)
    ensures
        r == field_contains(utf8_bytes(k@), v@, t.spec_bytes()),
{
    if contains_normalized(k.as_str(), t) {
        return true;
    }
    match v {
        MetadataValue::Scalar(s) => contains_normalized(s.as_str(), t),
        MetadataValue::List(items) => any_contains_exec(items, t),
    }
}

fn value_matches_exec(v: &MetadataValue, want: &str) -> (r: bool)
    ensures
        r == value_matches(v@, want.spec_bytes()),
{
    match v {
        MetadataValue::Scalar(s) => equals_normalized(s.as_str(), want),
        MetadataValue::List(items) => any_eq_exec(items, want),
    }
}

fn any_field_contains_exec(fs: &Vec<(String, MetadataValue)>, t: &str) -> (r: bool)
    ensures
        r == any_field_contains(fields_view(fs@), t.spec_bytes()),
{
    let ghost v = fields_view(fs@);
    let mut found = false;
    let mut i: usize = 0;
    while i < fs.len()
        invariant
            0 <= i <= fs@.len(),
            v == fields_view(fs@),
            found == any_field_contains(v.take(i as int), t.spec_bytes()),
        decreases fs@.len() - i,
    {
        assert(v.take(i + 1).drop_last() =~= v.take(i as int));
        if !found && field_contains_exec(&fs[i].0, &fs[i].1, t) {
            found = true;
        }
        i = i + 1;
    }
    assert(v.take(i as int) =~= v);
    found
}

fn has_field_exec(fs: &Vec<(String, MetadataValue)>, k: &str, want: &str) -> (r: bool)
    ensures
        r == has_field(fields_view(fs@), k.spec_bytes(), want.spec_bytes()),
{
    let ghost v = fields_view(fs@);
    let mut found = false;
    let mut i: usize = 0;
    while i < fs.len()
        invariant
            0 <= i <= fs@.len(),
            v == fields_view(fs@),
            found == has_field(v.take(i as int), k.spec_bytes(), want.spec_bytes()),
        decreases fs@.len() - i,
    {
        assert(v.take(i + 1).drop_last() =~= v.take(i as int));
        if !found && equals_normalized(fs[i].0.as_str(), k) && value_matches_exec(&fs[i].1, want) {
            found = true;
        }
        i = i + 1;
    }
    assert(v.take(i as int) =~= v);
    found
}

impl SearchDocument {
    fn score_term(&self, t: &str) -> (r: u32)
        ensures
            r as int == term_score(doc_view(*self), t.spec_bytes()),
    {
        let ghost d = doc_view(*self);
        let ghost tb = t.spec_bytes();
        let mut score: u32 = 0;
        match &self.title {
            Some(title) => {
                if contains_normalized(title.as_str(), t) {
                    score = score + 50;
                }
            },
            None => {},
        }
        if contains_normalized(self.file_name.as_str(), t) {
            score = score + 40;
        }
        if any_contains_exec(&self.tags, t) {
            score = score + 30;
        }
        let found = any_field_contains_exec(&self.fields, t);
        if found {
            score = score + 20;
        }
        if contains_normalized(self.body.as_str(), t) {
            score = score + 10;
        }
        score
    }

    fn matches(&self, q: &SearchQuery) -> (r: bool)
        ensures
            r == matches_filters(doc_view(*self), q.file_v(), q.tags_v(), q.fields_v()),
    {
        let ghost d = doc_view(*self);
        match &q.file_name {
            Some(f) => {
                if !contains_normalized(self.file_name.as_str(), f.as_str()) {
                    return false;
                }
            },
            None => {},
        }
        assert(q.file_v() matches Some(f) ==> contains_norm(d.1, f));
        let ghost tags = q.tags_v();
        let mut i: usize = 0;
        let mut ok = true;
        while i < q.required_tags.len()
            invariant
                0 <= i <= q.required_tags@.len(),
                d == doc_view(*self),
                tags == q.tags_v(),
                ok == all_tags_present(d.3, tags.take(i as int)),
            decreases q.required_tags@.len() - i,
        {
            assert(tags.take(i + 1).drop_last() =~= tags.take(i as int));
            assert(tags[i as int] == utf8_bytes(q.required_tags@[i as int]@));
            if ok && !any_eq_exec(&self.tags, q.required_tags[i].as_str()) {
                ok = false;
            }
            i = i + 1;
        }
        assert(tags.take(i as int) =~= tags);
        if !ok {
            return false;
        }
        let ghost fields = q.fields_v();
        let mut i: usize = 0;
        while i < q.required_fields.len()
            invariant
                0 <= i <= q.required_fields@.len(),
                d == doc_view(*self),
                fields == q.fields_v(),
                ok == all_fields_present(d.4, fields.take(i as int)),
            decreases q.required_fields@.len() - i,
        {
            assert(fields.take(i + 1).drop_last() =~= fields.take(i as int));
            if ok && !has_field_exec(&self.fields, q.required_fields[i].0.as_str(), q.required_fields[i].1.as_str()) {
                ok = false;
            }
            i = i + 1;
        }
        assert(fields.take(i as int) =~= fields);
        ok
    }
}


impl SearchDocument {
    fn score(&self, terms: &Vec<String>) -> (r: Option<u32>)
        ensures
            match r {
                Some(v) => result_score(doc_view(*self), strings_bytes(terms@)) == Some(v as int),
                None => result_score(doc_view(*self), strings_bytes(terms@)) is None,
            },
    {
        let ghost d = doc_view(*self);
        let ghost ts = strings_bytes(terms@);
        if terms.len() == 0 {
            return Some(1);
        }
        let mut total: u32 = 0;
        let mut i: usize = 0;
        assert(ts.take(0) =~= Seq::<Seq<u8>>::empty());
        while i < terms.len()
            invariant
                0 <= i <= terms@.len(),
                d == doc_view(*self),
                ts == strings_bytes(terms@),
                doc_score(d, ts.take(i as int)) >= 0,
                total as int == if doc_score(d, ts.take(i as int)) > u32::MAX {
                    u32::MAX as int
                } else {
                    doc_score(d, ts.take(i as int))
                },
            decreases terms@.len() - i,
        {
            let t = self.score_term(terms[i].as_str());
            assert(ts.take(i + 1).drop_last() =~= ts.take(i as int));
            assert(ts.take(i + 1).last() == ts[i as int]);
            assert(term_score(d, ts[i as int]) >= 0);
            total = total.saturating_add(t);
            i = i + 1;
        }
        assert(ts.take(i as int) =~= ts);
        if total > 0 {
            Some(total)
        } else {
            None
        }
    }
}

proof fn lemma_insert_doc_at(s: Seq<DocView>, x: DocView, i: int)
    requires
        0 <= i <= s.len(),
        forall|j: int| 0 <= j < i ==> comps_order(x.0, (#[trigger] s[j]).0) >= 0,
    ensures
        i == s.len() ==> insert_doc(s, x) == s.push(x),
        i < s.len() && comps_order(x.0, s[i].0) < 0 ==> insert_doc(s, x) == s.take(i) + seq![x]
            + s.skip(i),
    decreases i,
{
    if i > 0 {
        let t = s.drop_first();
        assert forall|j: int| 0 <= j < i - 1 implies comps_order(x.0, (#[trigger] t[j]).0) >= 0 by {
            assert(t[j] == s[j + 1]);
        }
        lemma_insert_doc_at(t, x, i - 1);
        if i == s.len() {
            assert(s.push(x) =~= seq![s[0]] + t.push(x));
        } else {
            assert(t[i - 1] == s[i]);
            assert(s.take(i) + seq![x] + s.skip(i) =~= seq![s[0]] + (t.take(i - 1) + seq![x] + t.skip(i - 1)));
        }
    } else {
        if s.len() == 0 {
            assert(s.push(x) =~= seq![x]);
        } else {
            assert(s.take(0) + seq![x] + s.skip(0) =~= seq![x] + s);
        }
    }
}

proof fn lemma_insert_hit_at(s: Seq<(Seq<Seq<u8>>, int)>, x: (Seq<Seq<u8>>, int), i: int)
    requires
        0 <= i <= s.len(),
        forall|j: int| 0 <= j < i ==> !ranks_before(x, #[trigger] s[j]),
    ensures
        i == s.len() ==> insert_hit(s, x) == s.push(x),
        i < s.len() && ranks_before(x, s[i]) ==> insert_hit(s, x) == s.take(i) + seq![x] + s.skip(i),
    decreases i,
{
    if i > 0 {
        let t = s.drop_first();
        assert forall|j: int| 0 <= j < i - 1 implies !ranks_before(x, #[trigger] t[j]) by {
            assert(t[j] == s[j + 1]);
        }
        lemma_insert_hit_at(t, x, i - 1);
        if i == s.len() {
            assert(s.push(x) =~= seq![s[0]] + t.push(x));
        } else {
            assert(t[i - 1] == s[i]);
            assert(s.take(i) + seq![x] + s.skip(i) =~= seq![s[0]] + (t.take(i - 1) + seq![x] + t.skip(i - 1)));
        }
    } else {
        if s.len() == 0 {
            assert(s.push(x) =~= seq![x]);
        } else {
            assert(s.take(0) + seq![x] + s.skip(0) =~= seq![x] + s);
        }
    }
}

/// In-memory lexical search index for parsed notes.
impl SearchDocument {
    fn embedding_text(&self) -> (r: String)
        ensures
            utf8_bytes(r@) == embedding_text_of(doc_view(*self)),
    {
        let ghost d = doc_view(*self);
        let mut text = String::new();
        assert(utf8_bytes(text@) =~= Seq::<u8>::empty());
        push_line(&mut text, self.file_name.as_str());
        match &self.title {
            Some(t) => push_line(&mut text, t.as_str()),
            None => {},
        }
        push_item_lines(&mut text, &self.tags);
        let ghost before_fields = utf8_bytes(text@);
        let ghost fs = fields_view(self.fields@);
        let mut i: usize = 0;
        assert(fs.take(0) =~= Seq::<(Seq<u8>, ValueView)>::empty());
        while i < self.fields.len()
            invariant
                0 <= i <= self.fields@.len(),
                fs == fields_view(self.fields@),
                utf8_bytes(text@) == before_fields + field_lines(fs.take(i as int)),
            decreases self.fields@.len() - i,
        {
            let (k, v) = &self.fields[i];
            push_line(&mut text, k.as_str());
            match v {
                MetadataValue::Scalar(x) => push_line(&mut text, x.as_str()),
                MetadataValue::List(xs) => push_item_lines(&mut text, xs),
            }
            assert(fs.take(i + 1).drop_last() =~= fs.take(i as int));
            assert(fs.take(i + 1).last() == fs[i as int]);
            assert(utf8_bytes(text@) =~= before_fields + field_lines(fs.take(i + 1)));
            i = i + 1;
        }
        assert(fs.take(i as int) =~= fs);
        push_str(&mut text, self.body.as_str());
        assert(utf8_bytes(text@) =~= embedding_text_of(d));
        text
    }
}

pub struct SearchIndex {
    documents: Vec<SearchDocument>,
}

/// Search result for a matching note.
#[derive(Debug, Clone, PartialEq, Eq)]
pub struct SearchResult {
    note_id: NoteId,
    score: u32,
}

impl View for SearchResult {
    type V = (Seq<Seq<u8>>, int);

    closed spec fn view(&self) -> (Seq<Seq<u8>>, int) {
        (self.note_id.key(), self.score as int)
    }
}

pub open spec fn results_view(v: Seq<SearchResult>) -> Seq<(Seq<Seq<u8>>, int)> {
    v.map_values(|r: SearchResult| r@)
}

impl SearchResult {
    /// The matching note.
    pub closed spec fn id(&self) -> NoteId {
        self.note_id
    }

    /// Returns the matching note.
    pub fn note_id(&self) -> (r: &NoteId)
        ensures
            r.key() == self@.0,
            *r == self.id(),
    {
        &self.note_id
    }

    /// Returns the lexical match score.
    pub fn score(&self) -> (r: u32)
        ensures
            r as int == self@.1,
    {
        self.score
    }
}

impl SearchIndex {
    /// The documents, sorted by note identifier.
    pub closed spec fn docs(&self) -> Seq<DocView> {
        docs_view(self.documents@)
    }

    /// Whether the identifier of every indexed note, with its path text, is
    /// one of `s`.
    pub closed spec fn ids_within(&self, s: Set<(Seq<Seq<u8>>, Seq<u8>)>) -> bool {
        forall|j: int| 0 <= j < self.documents@.len() ==> s.contains(id_pair((#[trigger] self.documents@[j]).note_id))
    }

    /// Builds a search index from parsed notes.
    pub fn from_notes(notes: Vec<MarkdownNote>) -> (r: SearchIndex)
        ensures
            r.docs() == docs_of(notes@),
            r.ids_within(note_ids(notes@)),
    {
        let ghost ids = note_ids(notes@);
        let ghost facts = notes@.map_values(|n: MarkdownNote| doc_of(n));
        let mut sorted: Vec<SearchDocument> = Vec::new();
        let mut i: usize = 0;
        assert(facts.take(0) =~= Seq::<DocView>::empty());
        assert(docs_view(sorted@) =~= Seq::<DocView>::empty());
        while i < notes.len()
            invariant
                0 <= i <= notes@.len(),
                facts == notes@.map_values(|n: MarkdownNote| doc_of(n)),
                docs_view(sorted@) == sort_docs(facts.take(i as int)),
                ids == note_ids(notes@),
                forall|j: int| 0 <= j < sorted@.len() ==> ids.contains(id_pair((#[trigger] sorted@[j]).note_id)),
            decreases notes@.len() - i,
        {
            let d = doc_from_note(&notes[i]);
            proof {
                let m = notes@.map_values(|n: MarkdownNote| id_pair(n.id()));
                assert(m[i as int] == id_pair(d.note_id));
                assert(m.contains(id_pair(d.note_id)));
            }
            let ghost s = docs_view(sorted@);
            let ghost x = doc_view(d);
            let mut k: usize = 0;
            while k < sorted.len()
                invariant
                    0 <= k <= sorted@.len(),
                    s == docs_view(sorted@),
                    x == doc_view(d),
                    forall|j: int| 0 <= j < k ==> comps_order(x.0, (#[trigger] s[j]).0) >= 0,
                ensures
                    0 <= k <= sorted@.len(),
                    k == sorted@.len() || comps_order(x.0, s[k as int].0) < 0,
                    forall|j: int| 0 <= j < k ==> comps_order(x.0, (#[trigger] s[j]).0) >= 0,
                decreases sorted@.len() - k,
            {
                if d.note_id.order(&sorted[k].note_id) < 0 {
                    break;
                }
                k = k + 1;
            }
            proof {
                lemma_insert_doc_at(s, x, k as int);
            }
            let ghost before = sorted@;
            sorted.insert(k, d);
            assert(docs_view(sorted@) =~= s.take(k as int) + seq![x] + s.skip(k as int));
            proof {
                assert forall|j: int| 0 <= j < sorted@.len() implies ids.contains(id_pair((#[trigger] sorted@[j]).note_id)) by {
                    if j < k {
                        assert(sorted@[j] == before[j]);
                    } else if j > k {
                        assert(sorted@[j] == before[j - 1]);
                    }
                }
            }
            assert(facts.take(i + 1).drop_last() =~= facts.take(i as int));
            assert(facts.take(i + 1).last() == facts[i as int]);
            proof {
                if k == s.len() {
                    assert(s.take(k as int) + seq![x] + s.skip(k as int) =~= s.push(x));
                }
            }
            i = i + 1;
        }
        assert(facts.take(i as int) =~= facts);
        SearchIndex { documents: sorted }
    }

    /// Searches indexed notes: the documents that pass the query's filters and
    /// score above zero (every one when the query has no terms), by
    /// decreasing score and then by note identifier.
    pub fn search(&self, query: &SearchQuery) -> (r: Vec<SearchResult>)
        ensures
            results_view(r@) == rank(
                hits(
                    self.docs(),
                    terms_of(query.text_v()),
                    query.file_v(),
                    query.tags_v(),
                    query.fields_v(),
                ),
            ),
            forall|s: Set<(Seq<Seq<u8>>, Seq<u8>)>|
                #[trigger] self.ids_within(s) ==> forall|k: int| 0 <= k < r@.len() ==> s.contains(id_pair((#[trigger] r@[k]).id())),
    {
        let terms = query.terms();
        let ghost ts = strings_bytes(terms@);
        let ghost docs = self.docs();
        let ghost dids = self.documents@.map_values(|d: SearchDocument| id_pair(d.note_id)).to_set();
        let mut out: Vec<SearchResult> = Vec::new();
        let mut i: usize = 0;
        assert(docs.take(0) =~= Seq::<DocView>::empty());
        assert(results_view(out@) =~= Seq::<(Seq<Seq<u8>>, int)>::empty());
        while i < self.documents.len()
            invariant
                0 <= i <= self.documents@.len(),
                ts == strings_bytes(terms@),
                ts == terms_of(query.text_v()),
                docs == self.docs(),
                docs == docs_view(self.documents@),
                results_view(out@) == rank(
                    hits(docs.take(i as int), ts, query.file_v(), query.tags_v(), query.fields_v()),
                ),
                dids == self.documents@.map_values(|d: SearchDocument| id_pair(d.note_id)).to_set(),
                forall|k: int| 0 <= k < out@.len() ==> dids.contains(id_pair((#[trigger] out@[k]).note_id)),
            decreases self.documents@.len() - i,
        {
            let d = &self.documents[i];
            assert(docs[i as int] == doc_view(*d));
            assert(docs.take(i + 1).drop_last() =~= docs.take(i as int));
            assert(docs.take(i + 1).last() == docs[i as int]);
            if d.matches(query) {
                match d.score(&terms) {
                    Some(sc) => {
                        let res = SearchResult { note_id: d.note_id.clone(), score: sc };
                        proof {
                            let m = self.documents@.map_values(|d: SearchDocument| id_pair(d.note_id));
                            assert(m[i as int] == id_pair(res.note_id));
                            assert(m.contains(id_pair(res.note_id)));
                        }
                        let ghost s = results_view(out@);
                        let ghost x = res@;
                        let mut k: usize = 0;
                        while k < out.len()
                            invariant
                                0 <= k <= out@.len(),
                                s == results_view(out@),
                                x == res@,
                                forall|j: int| 0 <= j < k ==> !ranks_before(x, #[trigger] s[j]),
                            ensures
                                0 <= k <= out@.len(),
                                k == out@.len() || ranks_before(x, s[k as int]),
                                forall|j: int| 0 <= j < k ==> !ranks_before(x, #[trigger] s[j]),
                            decreases out@.len() - k,
                        {
                            let better = res.score > out[k].score || (res.score == out[k].score
                                && res.note_id.order(&out[k].note_id) < 0);
                            assert(s[k as int] == out@[k as int]@);
                            if better {
                                break;
                            }
                            k = k + 1;
                        }
                        proof {
                            lemma_insert_hit_at(s, x, k as int);
                            let h1 = hits(docs.take(i + 1), ts, query.file_v(), query.tags_v(), query.fields_v());
                            let h0 = hits(docs.take(i as int), ts, query.file_v(), query.tags_v(), query.fields_v());
                            assert(x == (docs[i as int].0, result_score(docs[i as int], ts)->0));
                            assert(h1 == h0.push(x));
                            assert(h1.drop_last() =~= h0);
                            assert(rank(h1) == insert_hit(rank(h0), x));
                        }
                        let ghost before = out@;
                        out.insert(k, res);
                        assert(results_view(out@) =~= s.take(k as int) + seq![x] + s.skip(k as int));
                        proof {
                            assert forall|q: int| 0 <= q < out@.len() implies dids.contains(id_pair((#[trigger] out@[q]).note_id)) by {
                                if q < k {
                                    assert(out@[q] == before[q]);
                                } else if q > k {
                                    assert(out@[q] == before[q - 1]);
                                }
                            }
                        }
                        proof {
                            if k == s.len() {
                                assert(s.take(k as int) + seq![x] + s.skip(k as int) =~= s.push(x));
                            }
                        }
                    },
                    None => {
                        assert(hits(docs.take(i + 1), ts, query.file_v(), query.tags_v(), query.fields_v())
                            == hits(docs.take(i as int), ts, query.file_v(), query.tags_v(), query.fields_v()));
                    },
                }
            } else {
                assert(hits(docs.take(i + 1), ts, query.file_v(), query.tags_v(), query.fields_v())
                    == hits(docs.take(i as int), ts, query.file_v(), query.tags_v(), query.fields_v()));
            }
            i = i + 1;
        }
        assert(docs.take(i as int) =~= docs);
        proof {
            assert forall|s: Set<(Seq<Seq<u8>>, Seq<u8>)>|
                #[trigger] self.ids_within(s) implies forall|k: int| 0 <= k < out@.len() ==> s.contains(id_pair((#[trigger] out@[k]).id())) by {
                assert forall|k: int| 0 <= k < out@.len() implies s.contains(id_pair((#[trigger] out@[k]).id())) by {
                    let m = self.documents@.map_values(|d: SearchDocument| id_pair(d.note_id));
                    assert(dids.contains(id_pair(out@[k].note_id)));
                    let j = choose|j: int| 0 <= j < m.len() && m[j] == id_pair(out@[k].note_id);
                    assert(s.contains(id_pair(self.documents@[j].note_id)));
                }
            }
        }
        out
    }
}

impl SearchIndex {
    /// The number of indexed notes.
    pub fn len(&self) -> (r: usize)
        ensures
            r == self.docs().len(),
    {
        self.documents.len()
    }

    /// Each indexed note, in index order, with the text it is embedded from
    /// for local similarity search (see [`embedding_text_of`]).
    pub fn embedding_texts(&self) -> (r: Vec<(NoteId, String)>)
        ensures
            r@.len() == self.docs().len(),
            forall|i: int|
                0 <= i < r@.len() ==> (#[trigger] r@[i]).0.key() == self.docs()[i].0 && utf8_bytes(r@[i].1@)
                    == embedding_text_of(self.docs()[i]),
    {
        let mut out: Vec<(NoteId, String)> = Vec::new();
        let mut i: usize = 0;
        while i < self.documents.len()
            invariant
                0 <= i <= self.documents@.len(),
                out@.len() == i,
                forall|k: int|
                    0 <= k < i ==> (#[trigger] out@[k]).0.key() == self.docs()[k].0 && utf8_bytes(out@[k].1@)
                        == embedding_text_of(self.docs()[k]),
            decreases self.documents@.len() - i,
        {
            let d = &self.documents[i];
            assert(self.docs()[i as int] == doc_view(*d));
            out.push((d.note_id.clone(), d.embedding_text()));
            i = i + 1;
        }
        out
    }

    /// Whether the `i`-th indexed note passes the query's filters.
    pub fn matches_filters_at(&self, i: usize, query: &SearchQuery) -> (r: bool)
        requires
            i < self.docs().len(),
        ensures
            r == matches_filters(self.docs()[i as int], query.file_v(), query.tags_v(), query.fields_v()),
    {
        assert(self.docs()[i as int] == doc_view(self.documents@[i as int]));
        self.documents[i].matches(query)
    }
}

/// Number of dimensions of the local similarity embedding.
pub const SEMANTIC_DIMENSIONS: usize = 64;

/// FNV-1a 64-bit offset basis.
pub const FNV_OFFSET: u64 = 14_695_981_039_346_656_037;

/// FNV-1a 64-bit prime.
pub const FNV_PRIME: u64 = 1_099_511_628_211;

/// The 64-bit FNV-1a hash of `b`.
pub open spec fn fnv1a(b: Seq<u8>) -> u64
    decreases b.len(),
{
    if b.len() == 0 {
        FNV_OFFSET
    } else {
        vstd::wrapping::u64_specs::wrapping_mul(fnv1a(b.drop_last()) ^ (b.last() as u64), FNV_PRIME)
    }
}

/// The embedding dimension a text feature counts toward: its FNV-1a hash
/// modulo [`SEMANTIC_DIMENSIONS`].
pub fn feature_bucket(feature: &str) -> (r: usize)
    ensures
        r as int == (fnv1a(feature.spec_bytes()) as int) % (SEMANTIC_DIMENSIONS as int),
{
    let b = feature.as_bytes();
    let mut hash: u64 = FNV_OFFSET;
    let mut i: usize = 0;
    while i < b.len()
        invariant
            0 <= i <= b@.len(),
            hash == fnv1a(b@.take(i as int)),
        decreases b@.len() - i,
    {
        assert(b@.take(i + 1).drop_last() =~= b@.take(i as int));
        assert(b@.take(i + 1).last() == b@[i as int]);
        hash = (hash ^ (b[i] as u64)).wrapping_mul(FNV_PRIME);
        i = i + 1;
    }
    assert(b@.take(i as int) =~= b@);
    (hash % 64) as usize
}

/// A tag that contains the term, where no tag did before, adds exactly 30 to
/// the term's score; nothing else about the note changes.
pub proof fn lemma_tag_match_adds_30(d: DocView, tag: Seq<u8>, t: Seq<u8>)
    requires
        contains_norm(tag, t),
        !any_contains(d.3, t),
    ensures
        term_score((d.0, d.1, d.2, d.3.push(tag), d.4, d.5), t) == term_score(d, t) + 30,
{
    assert(d.3.push(tag).drop_last() =~= d.3);
}

/// A title that contains the term, on a note that had none, adds exactly 50
/// to the term's score.
pub proof fn lemma_title_match_adds_50(d: DocView, title: Seq<u8>, t: Seq<u8>)
    requires
        contains_norm(title, t),
        d.2 is None,
    ensures
        term_score((d.0, d.1, Some(title), d.3, d.4, d.5), t) == term_score(d, t) + 50,
{
}

/// Of two notes that differ only in their path, one whose path contains the
/// term and one whose path does not, the first scores exactly 40 more.
pub proof fn lemma_path_match_adds_40(d: DocView, path: Seq<u8>, t: Seq<u8>)
    requires
        contains_norm(path, t),
        !contains_norm(d.1, t),
    ensures
        term_score((d.0, path, d.2, d.3, d.4, d.5), t) == term_score(d, t) + 40,
{
}

/// A field whose value contains the term, where no field mentioned it
/// before, adds exactly 20 to the term's score.
pub proof fn lemma_field_match_adds_20(d: DocView, k: Seq<u8>, v: Seq<u8>, t: Seq<u8>)
    requires
        contains_norm(v, t),
        !any_field_contains(d.4, t),
    ensures
        term_score((d.0, d.1, d.2, d.3, d.4.push((k, ValueView::Scalar(v))), d.5), t) == term_score(d, t) + 20,
{
    assert(d.4.push((k, ValueView::Scalar(v))).drop_last() =~= d.4);
}

/// Of two notes that differ only in their body, one whose body contains the
/// term and one whose body does not, the first scores exactly 10 more.
pub proof fn lemma_body_match_adds_10(d: DocView, body: Seq<u8>, t: Seq<u8>)
    requires
        contains_norm(body, t),
        !contains_norm(d.5, t),
    ensures
        term_score((d.0, d.1, d.2, d.3, d.4, body), t) == term_score(d, t) + 10,
{
}

/// A note where the term is found nowhere scores nothing for it.
pub proof fn lemma_no_match_scores_nothing(k: Seq<Seq<u8>>, path: Seq<u8>, body: Seq<u8>, t: Seq<u8>)
    requires
        !contains_norm(path, t),
        !contains_norm(body, t),
    ensures
        term_score((k, path, None, Seq::empty(), Seq::empty(), body), t) == 0,
{
}

} // verus!
