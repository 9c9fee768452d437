//! Markdown notes: the frontmatter block, its fields, and validated tags.
use vstd::prelude::*;
use vstd::utf8::*;
use vstd::string::*;
use crate::text::{
    utf8_bytes, find_byte, line_end, trim_lo, trim_hi, lemma_find_byte_props, lemma_line_end,
    lemma_str_valid, lemma_after_ascii, lemma_trim_boundaries, lemma_boundary_at, lemma_encode_concat,
    find_byte_exec, line_end_exec, lemma_line_end_boundary, trim_range, owned_slice, str_slice, bytes_eq, to_owned_string,
};
use crate::path::{
    strings_bytes, lemma_strings_bytes_push, bytes_order, bytes_order_exec, lemma_bytes_order,
    lemma_bytes_order_trans,
};
use crate::folder::NoteId;
use crate::text::{ws_len_at, ws_len_before, skip_ws, rskip_ws};

verus! {

broadcast use vstd::seq::group_seq_axioms;

// ---------------------------------------------------------------------------
// Tags
// ---------------------------------------------------------------------------
/// Bytes allowed in a tag name: `[A-Za-z0-9_\-/]`.
pub open spec fn is_tag_byte(c: u8) -> bool {
    (0x30 <= c <= 0x39) || (0x41 <= c <= 0x5A) || (0x61 <= c <= 0x7A) || c == 0x5F || c == 0x2D
        || c == 0x2F
}

/// A non-empty name made of tag bytes only.
pub open spec fn is_valid_tag_name(n: Seq<u8>) -> bool {
    n.len() > 0 && forall|i: int| 0 <= i < n.len() ==> is_tag_byte(#[trigger] n[i])
}

/// A tag name is valid exactly when it is non-empty and every byte is an
/// ASCII letter, an ASCII digit, `_`, `-` or `/`; the same bytes are the
/// ones no check stops at.
pub proof fn lemma_tag_alphabet(n: Seq<u8>)
    ensures
        is_valid_tag_name(n) <==> (n.len() > 0 && forall|i: int|
            0 <= i < n.len() ==> ((0x30 <= #[trigger] n[i] && n[i] <= 0x39) || (0x41 <= n[i] && n[i] <= 0x5A) || (
            0x61 <= n[i] && n[i] <= 0x7A) || n[i] == 0x5F || n[i] == 0x2D || n[i] == 0x2F)),
        first_non_tag_byte(n, 0) == -1 <==> forall|i: int|
            0 <= i < n.len() ==> ((0x30 <= #[trigger] n[i] && n[i] <= 0x39) || (0x41 <= n[i] && n[i] <= 0x5A) || (
            0x61 <= n[i] && n[i] <= 0x7A) || n[i] == 0x5F || n[i] == 0x2D || n[i] == 0x2F),
{
    lemma_first_non_tag_byte(n, 0);
}

/// The name with one leading `#` removed.
pub open spec fn tag_body(b: Seq<u8>) -> Seq<u8> {
    if b.len() > 0 && b[0] == 0x23 {
        b.drop_first()
    } else {
        b
    }
}

/// First offset at or after `i` holding a byte that is not a tag byte, or `-1`.
pub open spec fn first_non_tag_byte(b: Seq<u8>, i: int) -> int
    decreases b.len() - i,
{
    if i < 0 || i >= b.len() {
        -1
    } else if !is_tag_byte(b[i]) {
        i
    } else {
        first_non_tag_byte(b, i + 1)
    }
}

pub proof fn lemma_first_non_tag_byte(b: Seq<u8>, i: int)
    requires
        0 <= i <= b.len(),
    ensures
        first_non_tag_byte(b, i) == -1 <==> forall|j: int| i <= j < b.len() ==> is_tag_byte(b[j]),
        first_non_tag_byte(b, i) != -1 ==> i <= first_non_tag_byte(b, i) < b.len() && !is_tag_byte(
            b[first_non_tag_byte(b, i)],
        ) && forall|j: int| i <= j < first_non_tag_byte(b, i) ==> is_tag_byte(b[j]),
    decreases b.len() - i,
{
    if i < b.len() && is_tag_byte(b[i]) {
        lemma_first_non_tag_byte(b, i + 1);
    }
}

/// A validated tag name without the leading `#`.
///
/// Valid characters: `[A-Za-z0-9_\-/]`. The `/` supports hierarchical tags
/// such as `#kubernetes/storage`.
#[derive(Debug, Clone, PartialEq, Eq, Hash, PartialOrd, Ord)]
pub struct Tag(String);

/// Errors returned by [`Tag::new`].
#[derive(Debug, Clone, PartialEq, Eq, Structural)]
pub enum TagError {
    /// The input is empty after stripping an optional leading `#`.
    Empty,
    /// The input contains a character outside `[A-Za-z0-9_\-/]`.
    InvalidChar(char),
}

impl Tag {
    /// The tag name, as bytes.
    pub closed spec fn view_bytes(&self) -> Seq<u8> {
        utf8_bytes(self.0@)
    }

    /// Every tag holds a valid name.
    pub closed spec fn wf(&self) -> bool {
        is_valid_tag_name(self.view_bytes())
    }

    /// Constructs and validates a tag from a string.
    ///
    /// Accepts input with or without a leading `#`. Fails when the remaining
    /// name is empty or contains a character outside the tag alphabet; the
    /// character reported is the first such one.
    pub fn new(name: &str) -> (r: Result<Tag, TagError>)
        ensures
            match r {
                Ok(t) => {
                    &&& is_valid_tag_name(tag_body(name.spec_bytes()))
                    &&& t.view_bytes() == tag_body(name.spec_bytes())
                    &&& t.wf()
                },
                Err(TagError::Empty) => tag_body(name.spec_bytes()).len() == 0,
                Err(TagError::InvalidChar(c)) => {
                    let body = tag_body(name.spec_bytes());
                    let i = first_non_tag_byte(body, 0);
                    &&& body.len() > 0
                    &&& i != -1
                    &&& i + utf8_bytes(seq![c]).len() <= body.len()
                    &&& body.subrange(i, i + utf8_bytes(seq![c]).len()) == utf8_bytes(seq![c])
                },
            },
    {
        let b = name.as_bytes();
        proof {
            lemma_str_valid(name);
        }
        let start: usize = if b.len() > 0 && b[0] == 0x23 {
            proof {
                lemma_after_ascii(b@, 0);
            }
            1
        } else {
            0
        };
        assert(b@.subrange(start as int, b@.len() as int) =~= tag_body(name.spec_bytes()));
        if start == b.len() {
            return Err(TagError::Empty);
        }
        let ghost body = tag_body(name.spec_bytes());
        let mut i = start;
        while i < b.len()
            invariant
                start <= i <= b@.len(),
                b@ == name.spec_bytes(),
                valid_utf8(b@),
                start == 1 ==> b@[0] == 0x23,
                start == 0 || start == 1,
                body == b@.subrange(start as int, b@.len() as int),
                body == tag_body(name.spec_bytes()),
                start < b@.len(),
                forall|j: int| start <= j < i ==> is_tag_byte(b@[j]),
            decreases b@.len() - i,
        {
            let c = b[i];
            let ok = (0x30 <= c && c <= 0x39) || (0x41 <= c && c <= 0x5A) || (0x61 <= c && c
                <= 0x7A) || c == 0x5F || c == 0x2D || c == 0x2F;
            if !ok {
                proof {
                    lemma_first_non_tag_byte(body, 0);
                    assert forall|j: int| 0 <= j < i - start implies is_tag_byte(body[j]) by {
                        assert(body[j] == b@[start + j]);
                    }
                    assert(first_non_tag_byte(body, 0) == i - start) by {
                        if first_non_tag_byte(body, 0) == -1 {
                            assert(body[i - start] == b@[i as int]);
                        } else if first_non_tag_byte(body, 0) < i - start {
                        } else if first_non_tag_byte(body, 0) > i - start {
                            assert(body[i - start] == b@[i as int]);
                        }
                    }
                    if i > start {
                        assert(is_tag_byte(b@[i - 1]));
                        lemma_after_ascii(b@, i - 1);
                    } else if start == 1 {
                        lemma_after_ascii(b@, 0);
                    }
                    lemma_str_valid(name);
                }
                let tail = str_slice(name, i, b.len());
                let mut chars = tail.chars();
                proof {
                    broadcast use vstd::string::axiom_spec_iter;
                    encode_utf8_decode_utf8(tail@);
                }
                assert(tail@.len() > 0) by {
                    if tail@.len() == 0 {
                        assert(encode_utf8(tail@) =~= Seq::<u8>::empty());
                    }
                };
                let first = chars.next();
                proof {
                    broadcast use vstd::string::next_postcondition;
                }
                match first {
                    Some(ch) => {
                        proof {
                            assert(ch == tail@[0]);
                            assert(tail@ =~= seq![ch] + tail@.drop_first());
                            lemma_encode_concat(seq![ch], tail@.drop_first());
                            assert(body.subrange(i - start, body.len() as int) =~= tail.spec_bytes());
                            let w = utf8_bytes(seq![ch]).len();
                            assert(body.subrange(i - start, i - start + w) =~= tail.spec_bytes().subrange(0, w as int));
                            assert(tail.spec_bytes().subrange(0, w as int) =~= utf8_bytes(seq![ch]));
                        }
                        return Err(TagError::InvalidChar(ch));
                    },
                    None => {
                        return Err(TagError::Empty);
                    },
                }
            }
            i = i + 1;
        }
        proof {
            assert forall|j: int| 0 <= j < body.len() implies is_tag_byte(#[trigger] body[j]) by {
                assert(body[j] == b@[start + j]);
            }
            lemma_after_ascii(b@, b@.len() - 1);
            if start == 1 {
                lemma_after_ascii(b@, 0);
            } else {
                lemma_boundary_at(b@, 0);
            }
        }
        let owned = owned_slice(name, start, b.len());
        Ok(Tag(owned))
    }

    /// The tag whose name is `s[lo..hi]`, already known to be valid.
    pub(crate) fn from_range(s: &str, lo: usize, hi: usize) -> (t: Tag)
        requires
            lo <= hi <= s.spec_bytes().len(),
            is_char_boundary(s.spec_bytes(), lo as int),
            is_char_boundary(s.spec_bytes(), hi as int),
            is_valid_tag_name(s.spec_bytes().subrange(lo as int, hi as int)),
        ensures
            t.view_bytes() == s.spec_bytes().subrange(lo as int, hi as int),
            t.wf(),
    {
        Tag(owned_slice(s, lo, hi))
    }

    /// Returns the tag name without the leading `#`.
    pub fn name(&self) -> (r: &str)
        ensures
            r.spec_bytes() == self.view_bytes(),
    {
        self.0.as_str()
    }

    /// A copy of this tag.
    pub fn duplicate(&self) -> (r: Tag)
        ensures
            r.view_bytes() == self.view_bytes(),
            self.wf() ==> r.wf(),
    {
        Tag(self.0.clone())
    }

    /// Compares two tags by name: -1, 0 or 1.
    pub fn order(&self, other: &Tag) -> (r: i8)
        ensures
            r as int == bytes_order(self.view_bytes(), other.view_bytes()),
    {
        bytes_order_exec(self.0.as_str().as_bytes(), other.0.as_str().as_bytes())
    }
}


// ---------------------------------------------------------------------------
// Frontmatter values
// ---------------------------------------------------------------------------
/// The model of a frontmatter value.
pub enum ValueView {
    Scalar(Seq<u8>),
    List(Seq<Seq<u8>>),
}

/// Simple frontmatter value: a scalar or an inline list.
#[derive(Debug, PartialEq, Eq)]
pub enum MetadataValue {
    /// Single scalar value.
    Scalar(String),
    /// Inline list value.
    List(Vec<String>),
}

impl View for MetadataValue {
    type V = ValueView;

    open spec fn view(&self) -> ValueView {
        match self {
            MetadataValue::Scalar(s) => ValueView::Scalar(utf8_bytes(s@)),
            MetadataValue::List(v) => ValueView::List(strings_bytes(v@)),
        }
    }
}

impl Clone for MetadataValue {
    fn clone(&self) -> (r: MetadataValue)
        ensures
            r@ == self@,
    {
        match self {
            MetadataValue::Scalar(s) => MetadataValue::Scalar(s.clone()),
            MetadataValue::List(v) => {
                let mut out: Vec<String> = Vec::new();
                let mut i: usize = 0;
                while i < v.len()
                    invariant
                        0 <= i <= v@.len(),
                        strings_bytes(out@) == strings_bytes(v@.subrange(0, i as int)),
                    decreases v@.len() - i,
                {
                    let ghost old_out = out@;
                    let c = v[i].clone();
                    out.push(c);
                    proof {
                        assert(v@.subrange(0, i + 1) =~= v@.subrange(0, i as int).push(v@[i as int]));
                        lemma_strings_bytes_push(old_out, c);
                        lemma_strings_bytes_push(v@.subrange(0, i as int), v@[i as int]);
                    }
                    i = i + 1;
                }
                assert(v@.subrange(0, v@.len() as int) =~= v@);
                MetadataValue::List(out)
            },
        }
    }
}

/// The range `[a, z)` without one pair of matching surrounding quotes.
pub open spec fn unquote_range(b: Seq<u8>, a: int, z: int) -> (int, int) {
    if z - a >= 2 && ((b[a] == 0x22 && b[z - 1] == 0x22) || (b[a] == 0x27 && b[z - 1] == 0x27)) {
        (a + 1, z - 1)
    } else {
        (a, z)
    }
}

pub open spec fn unquote(b: Seq<u8>, a: int, z: int) -> Seq<u8> {
    b.subrange(unquote_range(b, a, z).0, unquote_range(b, a, z).1)
}

/// Items of the inline list `b[lo..hi]`: split on `,`, trimmed, empty items
/// dropped, matching quotes removed.
pub open spec fn list_items(b: Seq<u8>, lo: int, hi: int) -> Seq<Seq<u8>>
    decreases hi - lo + 1,
{
    if lo < 0 || lo > hi || hi > b.len() {
        Seq::empty()
    } else {
        let k = find_byte(b, lo, hi, 0x2C);
        let e = if k == -1 {
            hi
        } else {
            k
        };
        let ta = trim_lo(b, lo, e);
        let tz = trim_hi(b, lo, e);
        let rest = if k == -1 {
            Seq::empty()
        } else {
            proof {
                lemma_find_byte_props(b, lo, hi, 0x2C);
            }
            list_items(b, k + 1, hi)
        };
        if ta == tz {
            rest
        } else {
            seq![unquote(b, ta, tz)] + rest
        }
    }
}

/// The value written in `b[lo..hi]`: `[a, b]` is a list, anything else a
/// scalar with matching quotes removed.
pub open spec fn value_of(b: Seq<u8>, lo: int, hi: int) -> ValueView {
    let a = trim_lo(b, lo, hi);
    let z = trim_hi(b, lo, hi);
    if z - a >= 2 && b[a] == 0x5B && b[z - 1] == 0x5D {
        ValueView::List(list_items(b, a + 1, z - 1))
    } else {
        ValueView::Scalar(unquote(b, a, z))
    }
}

/// A value written between matching single quotes or between matching
/// double quotes is the scalar of the text between them: both kinds of
/// quotes are removed, and nothing else is.
pub proof fn lemma_quoted_value_is_its_text(b: Seq<u8>, lo: int, hi: int)
    requires
        0 <= lo,
        lo + 2 <= hi <= b.len(),
        (b[lo] == 0x27 && b[hi - 1] == 0x27) || (b[lo] == 0x22 && b[hi - 1] == 0x22),
    ensures
        value_of(b, lo, hi) == ValueView::Scalar(b.subrange(lo + 1, hi - 1)),
{
    assert(ws_len_at(b, lo) == 0);
    assert(skip_ws(b, lo, hi) == lo);
    assert(ws_len_before(b, hi) == 0);
    assert(rskip_ws(b, lo, hi) == hi);
}

/// A value that is neither quoted nor a list, and has no surrounding
/// whitespace, is the scalar of its own text.
pub proof fn lemma_plain_value_is_its_text(b: Seq<u8>, lo: int, hi: int)
    requires
        0 <= lo,
        lo + 1 <= hi <= b.len(),
        ws_len_at(b, lo) == 0,
        ws_len_before(b, hi) == 0,
        b[lo] != 0x27 && b[lo] != 0x22 && b[lo] != 0x5B,
    ensures
        value_of(b, lo, hi) == ValueView::Scalar(b.subrange(lo, hi)),
{
    assert(skip_ws(b, lo, hi) == lo);
    assert(rskip_ws(b, lo, hi) == hi);
}

/// The `key: value` entry of the frontmatter line `b[lo..hi]`, if any.
/// Blank lines, `#` comments, lines without `:` and empty keys give none.
pub open spec fn parse_line(b: Seq<u8>, lo: int, hi: int) -> Option<(Seq<u8>, ValueView)> {
    let a = trim_lo(b, lo, hi);
    let z = trim_hi(b, lo, hi);
    if a == z || b[a] == 0x23 {
        None
    } else {
        let k = find_byte(b, a, z, 0x3A);
        if k == -1 {
            None
        } else {
            let ka = trim_lo(b, a, k);
            let kz = trim_hi(b, a, k);
            if ka == kz {
                None
            } else {
                Some((b.subrange(ka, kz), value_of(b, k + 1, z)))
            }
        }
    }
}

/// End of the line starting at `lo`, cut at `hi`.
pub open spec fn line_end_within(b: Seq<u8>, lo: int, hi: int) -> int {
    if line_end(b, lo) <= hi {
        line_end(b, lo)
    } else {
        hi
    }
}

/// Entries of the lines of `b[lo..hi]`, in line order.
pub open spec fn fm_entries(b: Seq<u8>, lo: int, hi: int) -> Seq<(Seq<u8>, ValueView)>
    decreases hi - lo,
{
    if lo < 0 || lo >= hi || hi > b.len() {
        Seq::empty()
    } else {
        let e = line_end_within(b, lo, hi);
        proof {
            lemma_line_end(b, lo);
        }
        let rest = fm_entries(b, e, hi);
        match parse_line(b, lo, e) {
            Some(x) => seq![x] + rest,
            None => rest,
        }
    }
}

/// Inserts `(k, v)` before the first entry whose key is not smaller,
/// replacing an entry with the same key.
pub open spec fn insert_field(s: Seq<(Seq<u8>, ValueView)>, k: Seq<u8>, v: ValueView) -> Seq<
    (Seq<u8>, ValueView),
>
    decreases s.len(),
{
    if s.len() == 0 {
        seq![(k, v)]
    } else if bytes_order(k, s[0].0) < 0 {
        seq![(k, v)] + s
    } else if bytes_order(k, s[0].0) == 0 {
        seq![(k, v)] + s.drop_first()
    } else {
        seq![s[0]] + insert_field(s.drop_first(), k, v)
    }
}

/// The fields map built from entries in order: sorted by key, later entries
/// replacing earlier ones with the same key.
pub open spec fn fold_fields(e: Seq<(Seq<u8>, ValueView)>) -> Seq<(Seq<u8>, ValueView)>
    decreases e.len(),
{
    if e.len() == 0 {
        Seq::empty()
    } else {
        insert_field(fold_fields(e.drop_last()), e.last().0, e.last().1)
    }
}

/// The value of the first entry with key `k`.
pub open spec fn lookup(s: Seq<(Seq<u8>, ValueView)>, k: Seq<u8>) -> Option<ValueView>
    decreases s.len(),
{
    if s.len() == 0 {
        None
    } else if s[0].0 == k {
        Some(s[0].1)
    } else {
        lookup(s.drop_first(), k)
    }
}

/// Keys strictly increase.
pub open spec fn keys_sorted(s: Seq<(Seq<u8>, ValueView)>) -> bool {
    forall|i: int, j: int| 0 <= i < j < s.len() ==> bytes_order(s[i].0, s[j].0) < 0
}


fn unquote_range_exec(b: &[u8], a: usize, z: usize) -> (r: (usize, usize))
    requires
        a <= z <= b@.len(),
    ensures
        r.0 as int == unquote_range(b@, a as int, z as int).0,
        r.1 as int == unquote_range(b@, a as int, z as int).1,
        a <= r.0 <= r.1 <= z,
{
    if z - a >= 2 && ((b[a] == 0x22 && b[z - 1] == 0x22) || (b[a] == 0x27 && b[z - 1] == 0x27)) {
        (a + 1, z - 1)
    } else {
        (a, z)
    }
}

/// Boundaries of the unquoted range of a range between boundaries.
proof fn lemma_unquote_boundaries(b: Seq<u8>, a: int, z: int)
    requires
        valid_utf8(b),
        0 <= a <= z <= b.len(),
        is_char_boundary(b, a),
        is_char_boundary(b, z),
    ensures
        is_char_boundary(b, unquote_range(b, a, z).0),
        is_char_boundary(b, unquote_range(b, a, z).1),
        a <= unquote_range(b, a, z).0 <= unquote_range(b, a, z).1 <= z,
{
    if z - a >= 2 && ((b[a] == 0x22 && b[z - 1] == 0x22) || (b[a] == 0x27 && b[z - 1] == 0x27)) {
        lemma_after_ascii(b, a);
        lemma_after_ascii(b, z - 1);
    }
}

/// Parses the inline list `s[lo..hi]` (the text between `[` and `]`).
fn parse_inline_list(s: &str, lo: usize, hi: usize) -> (r: Vec<String>)
    requires
        lo <= hi <= s.spec_bytes().len(),
        is_char_boundary(s.spec_bytes(), lo as int),
        is_char_boundary(s.spec_bytes(), hi as int),
    ensures
        strings_bytes(r@) == list_items(s.spec_bytes(), lo as int, hi as int),
{
    let b = s.as_bytes();
    proof {
        lemma_str_valid(s);
    }
    let mut out: Vec<String> = Vec::new();
    let mut pos = lo;
    loop
        invariant
            lo <= pos <= hi <= b@.len(),
            b@ == s.spec_bytes(),
            valid_utf8(b@),
            is_char_boundary(b@, pos as int),
            is_char_boundary(b@, hi as int),
            list_items(b@, lo as int, hi as int) == strings_bytes(out@) + list_items(
                b@,
                pos as int,
                hi as int,
            ),
        decreases hi - pos,
    {
        let k = find_byte_exec(b, pos, hi, 0x2C);
        proof {
            lemma_find_byte_props(b@, pos as int, hi as int, 0x2C);
        }
        let e = match k {
            Some(k) => k,
            None => hi,
        };
        proof {
            if e < hi {
                lemma_after_ascii(b@, e as int);
            }
            lemma_trim_boundaries(b@, pos as int, e as int);
        }
        let (ta, tz) = trim_range(b, pos, e);
        let ghost before = out@;
        if ta < tz {
            let (qa, qz) = unquote_range_exec(b, ta, tz);
            proof {
                lemma_unquote_boundaries(b@, ta as int, tz as int);
            }
            let item = owned_slice(s, qa, qz);
            out.push(item);
            proof {
                lemma_strings_bytes_push(before, item);
            }
        }
        match k {
            Some(kk) => {
                proof {
                    lemma_after_ascii(b@, kk as int);
                    assert(strings_bytes(out@) + list_items(b@, kk + 1, hi as int) =~= strings_bytes(
                        before,
                    ) + list_items(b@, pos as int, hi as int));
                }
                pos = kk + 1;
            },
            None => {
                proof {
                    assert(strings_bytes(out@) =~= strings_bytes(before) + list_items(
                        b@,
                        pos as int,
                        hi as int,
                    ));
                    assert(strings_bytes(out@) + list_items(b@, hi as int, hi as int) =~= strings_bytes(out@));
                }
                return out;
            },
        }
    }
}

/// Parses the frontmatter value written in `s[lo..hi]`.
fn parse_metadata_value(s: &str, lo: usize, hi: usize) -> (r: MetadataValue)
    requires
        lo <= hi <= s.spec_bytes().len(),
        is_char_boundary(s.spec_bytes(), lo as int),
        is_char_boundary(s.spec_bytes(), hi as int),
    ensures
        r@ == value_of(s.spec_bytes(), lo as int, hi as int),
{
    let b = s.as_bytes();
    proof {
        lemma_str_valid(s);
        lemma_trim_boundaries(b@, lo as int, hi as int);
    }
    let (a, z) = trim_range(b, lo, hi);
    if z - a >= 2 && b[a] == 0x5B && b[z - 1] == 0x5D {
        proof {
            lemma_after_ascii(b@, a as int);
            lemma_after_ascii(b@, z - 1);
        }
        return MetadataValue::List(parse_inline_list(s, a + 1, z - 1));
    }
    let (qa, qz) = unquote_range_exec(b, a, z);
    proof {
        lemma_unquote_boundaries(b@, a as int, z as int);
    }
    MetadataValue::Scalar(owned_slice(s, qa, qz))
}

/// Parses the frontmatter line `s[lo..hi]` into a `key: value` entry.
fn parse_frontmatter_line(s: &str, lo: usize, hi: usize) -> (r: Option<(String, MetadataValue)>)
    requires
        lo <= hi <= s.spec_bytes().len(),
        is_char_boundary(s.spec_bytes(), lo as int),
        is_char_boundary(s.spec_bytes(), hi as int),
    ensures
        match r {
            None => parse_line(s.spec_bytes(), lo as int, hi as int) is None,
            Some(p) => parse_line(s.spec_bytes(), lo as int, hi as int) == Some(
                (utf8_bytes(p.0@), p.1@),
            ),
        },
{
    let b = s.as_bytes();
    proof {
        lemma_str_valid(s);
        lemma_trim_boundaries(b@, lo as int, hi as int);
    }
    let (a, z) = trim_range(b, lo, hi);
    if a == z || b[a] == 0x23 {
        return None;
    }
    let k = match find_byte_exec(b, a, z, 0x3A) {
        None => {
            return None;
        },
        Some(k) => k,
    };
    proof {
        lemma_find_byte_props(b@, a as int, z as int, 0x3A);
        lemma_after_ascii(b@, k as int);
        lemma_trim_boundaries(b@, a as int, k as int);
    }
    let (ka, kz) = trim_range(b, a, k);
    if ka == kz {
        return None;
    }
    let key = owned_slice(s, ka, kz);
    let value = parse_metadata_value(s, k + 1, z);
    Some((key, value))
}


// ---------------------------------------------------------------------------
// Laws of the fields map
// ---------------------------------------------------------------------------
proof fn lemma_insert_field_at(s: Seq<(Seq<u8>, ValueView)>, k: Seq<u8>, v: ValueView, i: int)
    requires
        0 <= i <= s.len(),
        forall|j: int| 0 <= j < i ==> bytes_order(k, #[trigger] s[j].0) > 0,
    ensures
        i == s.len() ==> insert_field(s, k, v) == s + seq![(k, v)],
        i < s.len() && bytes_order(k, s[i].0) < 0 ==> insert_field(s, k, v) == s.take(i) + seq![
            (k, v),
        ] + s.skip(i),
        i < s.len() && bytes_order(k, s[i].0) == 0 ==> insert_field(s, k, v) == s.take(i) + seq![
            (k, v),
        ] + s.skip(i + 1),
    decreases i,
{
    if i > 0 {
        let t = s.drop_first();
        assert forall|j: int| 0 <= j < i - 1 implies bytes_order(k, #[trigger] t[j].0) > 0 by {
            assert(t[j] == s[j + 1]);
        }
        lemma_insert_field_at(t, k, v, i - 1);
        assert(bytes_order(k, s[0].0) > 0);
        if i == s.len() {
            assert(s + seq![(k, v)] =~= seq![s[0]] + (t + seq![(k, v)]));
        } else {
            assert(s.take(i) + seq![(k, v)] + s.skip(i) =~= seq![s[0]] + (t.take(i - 1) + seq![
                (k, v),
            ] + t.skip(i - 1)));
            assert(s.take(i) + seq![(k, v)] + s.skip(i + 1) =~= seq![s[0]] + (t.take(i - 1)
                + seq![(k, v)] + t.skip(i)));
        }
    } else {
        if s.len() == 0 {
            assert(s + seq![(k, v)] =~= seq![(k, v)]);
        } else {
            assert(s.take(0) + seq![(k, v)] + s.skip(0) =~= seq![(k, v)] + s);
            assert(s.take(0) + seq![(k, v)] + s.skip(1) =~= seq![(k, v)] + s.drop_first());
        }
    }
}

/// After inserting `(k, v)`, `k` is bound to `v` and every other key keeps its value.
pub proof fn lemma_lookup_insert_field(
    s: Seq<(Seq<u8>, ValueView)>,
    k: Seq<u8>,
    v: ValueView,
    other: Seq<u8>,
)
    ensures
        lookup(insert_field(s, k, v), k) == Some(v),
        other != k ==> lookup(insert_field(s, k, v), other) == lookup(s, other),
    decreases s.len(),
{
    lemma_bytes_order(k, k);
    let r = insert_field(s, k, v);
    if s.len() == 0 {
        assert(r.drop_first() =~= s);
    } else {
        lemma_bytes_order(k, s[0].0);
        let t = s.drop_first();
        if bytes_order(k, s[0].0) < 0 {
            assert(r.drop_first() =~= s);
            assert(r[0] == (k, v));
        } else if bytes_order(k, s[0].0) == 0 {
            assert(r.drop_first() =~= t);
            assert(r[0] == (k, v));
            assert(s[0].0 == k);
        } else {
            lemma_lookup_insert_field(t, k, v, other);
            assert(r.drop_first() =~= insert_field(t, k, v));
            assert(r[0] == s[0]);
            assert(s[0].0 != k);
        }
    }
}

/// Inserting keeps keys strictly increasing.
pub proof fn lemma_insert_field_sorted(s: Seq<(Seq<u8>, ValueView)>, k: Seq<u8>, v: ValueView)
    requires
        keys_sorted(s),
    ensures
        keys_sorted(insert_field(s, k, v)),
        forall|j: int|
            0 <= j < insert_field(s, k, v).len() ==> (#[trigger] insert_field(s, k, v)[j].0 == k
                || exists|m: int| 0 <= m < s.len() && s[m].0 == insert_field(s, k, v)[j].0),
    decreases s.len(),
{
    let r = insert_field(s, k, v);
    if s.len() == 0 {
    } else {
        let t = s.drop_first();
        lemma_bytes_order(k, s[0].0);
        assert(keys_sorted(t)) by {
            assert forall|i: int, j: int| 0 <= i < j < t.len() implies bytes_order(t[i].0, t[j].0)
                < 0 by {
                assert(t[i] == s[i + 1] && t[j] == s[j + 1]);
            }
        }
        if bytes_order(k, s[0].0) < 0 {
            assert forall|i: int, j: int| 0 <= i < j < r.len() implies bytes_order(r[i].0, r[j].0)
                < 0 by {
                if i == 0 {
                    assert(r[j] == s[j - 1]);
                    if j - 1 > 0 {
                        assert(bytes_order(s[0].0, s[j - 1].0) < 0);
                        lemma_bytes_order_trans(k, s[0].0, s[j - 1].0, 0);
                    }
                } else {
                    assert(r[i] == s[i - 1] && r[j] == s[j - 1]);
                }
            }
            assert forall|j: int| 0 <= j < r.len() implies (#[trigger] r[j].0 == k || exists|
                m: int,
            | 0 <= m < s.len() && s[m].0 == r[j].0) by {
                if j > 0 {
                    assert(r[j] == s[j - 1]);
                }
            }
        } else if bytes_order(k, s[0].0) == 0 {
            assert forall|i: int, j: int| 0 <= i < j < r.len() implies bytes_order(r[i].0, r[j].0)
                < 0 by {
                assert(r[j] == s[j]);
                if i > 0 {
                    assert(r[i] == s[i]);
                } else {
                    assert(k == s[0].0);
                }
            }
            assert forall|j: int| 0 <= j < r.len() implies (#[trigger] r[j].0 == k || exists|
                m: int,
            | 0 <= m < s.len() && s[m].0 == r[j].0) by {
                if j > 0 {
                    assert(r[j] == s[j]);
                }
            }
        } else {
            lemma_insert_field_sorted(t, k, v);
            let rt = insert_field(t, k, v);
            assert(r == seq![s[0]] + rt);
            assert forall|j: int| 0 <= j < r.len() implies (#[trigger] r[j].0 == k || exists|
                m: int,
            | 0 <= m < s.len() && s[m].0 == r[j].0) by {
                if j == 0 {
                    assert(s[0].0 == r[0].0);
                } else {
                    assert(r[j] == rt[j - 1]);
                    if rt[j - 1].0 != k {
                        let m = choose|m: int| 0 <= m < t.len() && t[m].0 == rt[j - 1].0;
                        assert(s[m + 1] == t[m]);
                    }
                }
            }
            assert forall|i: int, j: int| 0 <= i < j < r.len() implies bytes_order(r[i].0, r[j].0)
                < 0 by {
                if i == 0 {
                    assert(r[j] == rt[j - 1]);
                    if rt[j - 1].0 == k {
                        lemma_bytes_order(s[0].0, k);
                    } else {
                        let m = choose|m: int| 0 <= m < t.len() && t[m].0 == rt[j - 1].0;
                        assert(s[m + 1] == t[m]);
                    }
                } else {
                    assert(r[i] == rt[i - 1] && r[j] == rt[j - 1]);
                }
            }
        }
    }
}

/// The fields built from any entries have strictly increasing keys.
pub proof fn lemma_fields_sorted(e: Seq<(Seq<u8>, ValueView)>)
    ensures
        keys_sorted(fold_fields(e)),
    decreases e.len(),
{
    if e.len() > 0 {
        lemma_fields_sorted(e.drop_last());
        lemma_insert_field_sorted(fold_fields(e.drop_last()), e.last().0, e.last().1);
    }
}

/// A key's value is the one of its last entry.
pub proof fn lemma_fields_last_wins(e: Seq<(Seq<u8>, ValueView)>, k: Seq<u8>, v: ValueView)
    ensures
        lookup(fold_fields(e.push((k, v))), k) == Some(v),
{
    assert(e.push((k, v)).drop_last() =~= e);
    lemma_lookup_insert_field(fold_fields(e), k, v, k);
}


// ---------------------------------------------------------------------------
// Frontmatter
// ---------------------------------------------------------------------------
/// The model of a list of fields.
pub open spec fn fields_view(v: Seq<(String, MetadataValue)>) -> Seq<(Seq<u8>, ValueView)> {
    v.map_values(|p: (String, MetadataValue)| (utf8_bytes(p.0@), p.1@))
}

/// The validated tags of a list: entries that are valid tag names once a
/// leading `#` is removed, in order.
pub open spec fn valid_tags(items: Seq<Seq<u8>>) -> Seq<Seq<u8>>
    decreases items.len(),
{
    if items.len() == 0 {
        Seq::empty()
    } else {
        let rest = valid_tags(items.drop_last());
        if is_valid_tag_name(tag_body(items.last())) {
            rest.push(tag_body(items.last()))
        } else {
            rest
        }
    }
}

/// The names of a list of tags.
pub open spec fn tag_names(v: Seq<Tag>) -> Seq<Seq<u8>> {
    v.map_values(|t: Tag| t.view_bytes())
}

/// Frontmatter metadata parsed from a Markdown note.
#[derive(Debug, PartialEq, Eq)]
pub struct Frontmatter {
    fields: Vec<(String, MetadataValue)>,
}

impl View for Frontmatter {
    type V = Seq<(Seq<u8>, ValueView)>;

    /// The fields in key order.
    closed spec fn view(&self) -> Seq<(Seq<u8>, ValueView)> {
        fields_view(self.fields@)
    }
}

fn insert_field_exec(fields: &mut Vec<(String, MetadataValue)>, key: String, value: MetadataValue)
    ensures
        fields_view(final(fields)@) == insert_field(
            fields_view(old(fields)@),
            utf8_bytes(key@),
            value@,
        ),
{
    let ghost k = utf8_bytes(key@);
    let ghost v = value@;
    let ghost s = fields_view(fields@);
    let mut i: usize = 0;
    while i < fields.len()
        invariant
            0 <= i <= fields@.len(),
            s == fields_view(fields@),
            s == fields_view(old(fields)@),
            k == utf8_bytes(key@),
            v == value@,
            forall|j: int| 0 <= j < i ==> bytes_order(k, #[trigger] s[j].0) > 0,
        decreases fields@.len() - i,
    {
        let c = bytes_order_exec(key.as_str().as_bytes(), fields[i].0.as_str().as_bytes());
        assert(s[i as int].0 == utf8_bytes(fields@[i as int].0@));
        if c < 0 {
            proof {
                lemma_insert_field_at(s, k, v, i as int);
            }
            fields.insert(i, (key, value));
            assert(fields_view(fields@) =~= s.take(i as int) + seq![(k, v)] + s.skip(i as int));
            return;
        }
        if c == 0 {
            proof {
                lemma_insert_field_at(s, k, v, i as int);
            }
            fields.set(i, (key, value));
            assert(fields_view(fields@) =~= s.take(i as int) + seq![(k, v)] + s.skip(i + 1));
            return;
        }
        i = i + 1;
    }
    proof {
        lemma_insert_field_at(s, k, v, i as int);
    }
    fields.push((key, value));
    assert(fields_view(fields@) =~= s + seq![(k, v)]);
}

impl Frontmatter {
    /// Parses the frontmatter region `s[lo..hi]`, one entry per line.
    fn parse(s: &str, lo: usize, hi: usize) -> (r: Frontmatter)
        requires
            lo <= hi <= s.spec_bytes().len(),
            is_char_boundary(s.spec_bytes(), lo as int),
            is_char_boundary(s.spec_bytes(), hi as int),
        ensures
            r@ == fold_fields(fm_entries(s.spec_bytes(), lo as int, hi as int)),
    {
        let b = s.as_bytes();
        proof {
            lemma_str_valid(s);
        }
        let mut fields: Vec<(String, MetadataValue)> = Vec::new();
        let ghost mut done: Seq<(Seq<u8>, ValueView)> = Seq::empty();
        let mut pos = lo;
        while pos < hi
            invariant
                lo <= pos <= hi <= b@.len(),
                b@ == s.spec_bytes(),
                valid_utf8(b@),
                is_char_boundary(b@, pos as int),
                is_char_boundary(b@, hi as int),
                fm_entries(b@, lo as int, hi as int) == done + fm_entries(b@, pos as int, hi as int),
                fields_view(fields@) == fold_fields(done),
            decreases hi - pos,
        {
            let le = line_end_exec(b, pos);
            let e = if le <= hi {
                le
            } else {
                hi
            };
            proof {
                lemma_line_end(b@, pos as int);
                if e < hi || le <= hi {
                    if le < b@.len() || b@[le - 1] == 10 {
                        lemma_after_ascii(b@, le - 1);
                    } else {
                        lemma_str_valid(s);
                    }
                }
            }
            let parsed = parse_frontmatter_line(s, pos, e);
            match parsed {
                Some(p) => {
                    let ghost x = (utf8_bytes(p.0@), p.1@);
                    insert_field_exec(&mut fields, p.0, p.1);
                    proof {
                        assert((done.push(x)).drop_last() =~= done);
                        assert(fm_entries(b@, lo as int, hi as int) =~= done.push(x) + fm_entries(
                            b@,
                            e as int,
                            hi as int,
                        ));
                        done = done.push(x);
                    }
                },
                None => {
                    assert(fm_entries(b@, lo as int, hi as int) =~= done + fm_entries(
                        b@,
                        e as int,
                        hi as int,
                    ));
                },
            }
            pos = e;
        }
        assert(done + fm_entries(b@, pos as int, hi as int) =~= done);
        Frontmatter { fields }
    }

    /// Returns a frontmatter field by key.
    pub fn get(&self, key: &str) -> (r: Option<&MetadataValue>)
        ensures
            match r {
                Some(v) => lookup(self@, key.spec_bytes()) == Some(v@),
                None => lookup(self@, key.spec_bytes()) is None,
            },
    {
        let ghost s = self@;
        let mut i: usize = 0;
        assert(s.skip(0) =~= s);
        while i < self.fields.len()
            invariant
                0 <= i <= self.fields@.len(),
                s == fields_view(self.fields@),
                lookup(s, key.spec_bytes()) == lookup(s.skip(i as int), key.spec_bytes()),
            decreases self.fields@.len() - i,
        {
            let same = bytes_eq(self.fields[i].0.as_str().as_bytes(), key.as_bytes());
            assert(s.skip(i as int)[0] == s[i as int]);
            assert(s.skip(i as int).drop_first() =~= s.skip(i + 1));
            if same {
                return Some(&self.fields[i].1);
            }
            i = i + 1;
        }
        assert(s.skip(i as int) =~= Seq::<(Seq<u8>, ValueView)>::empty());
        None
    }

    /// Returns a scalar field by key.
    pub fn scalar(&self, key: &str) -> (r: Option<&str>)
        ensures
            match r {
                Some(v) => lookup(self@, key.spec_bytes()) == Some(ValueView::Scalar(v.spec_bytes())),
                None => !(lookup(self@, key.spec_bytes()) matches Some(ValueView::Scalar(_))),
            },
    {
        match self.get(key) {
            Some(MetadataValue::Scalar(value)) => Some(value.as_str()),
            Some(MetadataValue::List(_)) => None,
            None => None,
        }
    }

    /// Returns a list field by key.
    pub fn list(&self, key: &str) -> (r: Option<&[String]>)
        ensures
            match r {
                Some(v) => lookup(self@, key.spec_bytes()) == Some(ValueView::List(strings_bytes(v@))),
                None => !(lookup(self@, key.spec_bytes()) matches Some(ValueView::List(_))),
            },
    {
        match self.get(key) {
            Some(MetadataValue::List(values)) => Some(values.as_slice()),
            Some(MetadataValue::Scalar(_)) => None,
            None => None,
        }
    }

    /// Returns whether this frontmatter block contains no parsed fields.
    pub fn is_empty(&self) -> (r: bool)
        ensures
            r == (self@.len() == 0),
    {
        self.fields.len() == 0
    }

    /// Returns the parsed fields in key order.
    pub fn fields(&self) -> (r: &Vec<(String, MetadataValue)>)
        ensures
            fields_view(r@) == self@,
    {
        &self.fields
    }

    /// Returns validated tags from the `tags:` list field; invalid entries
    /// are dropped.
    pub fn tags(&self) -> (r: Vec<Tag>)
        ensures
            tag_names(r@) == match lookup(self@, tags_key()) {
                Some(ValueView::List(items)) => valid_tags(items),
                _ => Seq::empty(),
            },
            forall|i: int| 0 <= i < r@.len() ==> (#[trigger] r@[i]).wf(),
    {
        let key = "tags";
        proof {
            reveal_strlit("tags");
            crate::text::lemma_ascii_str(key);
            assert(key.spec_bytes() =~= tags_key());
        }
        let mut out: Vec<Tag> = Vec::new();
        match self.list(key) {
            None => {
                assert(tag_names(out@) =~= Seq::<Seq<u8>>::empty());
                out
            },
            Some(items) => {
                let ghost sb = strings_bytes(items@);
                let mut i: usize = 0;
                while i < items.len()
                    invariant
                        0 <= i <= items@.len(),
                        sb == strings_bytes(items@),
                        tag_names(out@) == valid_tags(sb.take(i as int)),
                        forall|j: int| 0 <= j < out@.len() ==> (#[trigger] out@[j]).wf(),
                    decreases items@.len() - i,
                {
                    let r = Tag::new(items[i].as_str());
                    assert(sb.take(i + 1).drop_last() =~= sb.take(i as int));
                    assert(sb.take(i + 1).last() == sb[i as int]);
                    assert(sb[i as int] == utf8_bytes(items@[i as int]@));
                    match r {
                        Ok(t) => {
                            out.push(t);
                            assert(tag_names(out@) =~= valid_tags(sb.take(i as int)).push(
                                tag_body(sb[i as int]),
                            ));
                        },
                        Err(_) => {
                            proof {
                                lemma_first_non_tag_byte(tag_body(sb[i as int]), 0);
                            }
                        },
                    }
                    i = i + 1;
                }
                assert(sb.take(i as int) =~= sb);
                out
            },
        }
    }
}

/// The key `tags`.
pub open spec fn tags_key() -> Seq<u8> {
    seq![0x74u8, 0x61, 0x67, 0x73]
}


// ---------------------------------------------------------------------------
// Notes
// ---------------------------------------------------------------------------
/// The bytes `---`.
pub open spec fn dashes() -> Seq<u8> {
    seq![0x2Du8, 0x2D, 0x2D]
}

/// Whether the line `b[lo..hi]` is `---` once trimmed.
pub open spec fn is_dash_line(b: Seq<u8>, lo: int, hi: int) -> bool {
    b.subrange(trim_lo(b, lo, hi), trim_hi(b, lo, hi)) == dashes()
}

/// Start of the first `---` line at or after the line start `c`, or `-1`.
pub open spec fn closing_line(b: Seq<u8>, c: int) -> int
    decreases b.len() - c,
{
    if c < 0 || c >= b.len() {
        -1
    } else if is_dash_line(b, c, line_end(b, c)) {
        c
    } else {
        proof {
            lemma_line_end(b, c);
        }
        closing_line(b, line_end(b, c))
    }
}

/// The frontmatter block of `b`: the start and end of its inner lines and the
/// end of the closing `---` line. The first line must be `---` and a later
/// line must close the block.
pub open spec fn frontmatter_bounds(b: Seq<u8>) -> Option<(int, int, int)> {
    if b.len() == 0 {
        None
    } else {
        let e1 = line_end(b, 0);
        if !is_dash_line(b, 0, e1) {
            None
        } else {
            let c = closing_line(b, e1);
            if c == -1 {
                None
            } else {
                Some((e1, c, line_end(b, c)))
            }
        }
    }
}

/// `p` moved over one blank line separator (`\r\n` or `\n`).
pub open spec fn skip_blank(b: Seq<u8>, p: int) -> int {
    if 0 <= p && p + 1 < b.len() && b[p] == 13 && b[p + 1] == 10 {
        p + 2
    } else if 0 <= p < b.len() && b[p] == 10 {
        p + 1
    } else {
        p
    }
}

/// Where the body of a note with source `b` starts.
pub open spec fn body_start(b: Seq<u8>) -> int {
    match frontmatter_bounds(b) {
        None => 0,
        Some(t) => skip_blank(b, t.2),
    }
}

/// The fields of the frontmatter block of `b`, if it has a complete one.
pub open spec fn frontmatter_of(b: Seq<u8>) -> Option<Seq<(Seq<u8>, ValueView)>> {
    match frontmatter_bounds(b) {
        None => None,
        Some(t) => Some(fold_fields(fm_entries(b, t.0, t.1))),
    }
}

pub(crate) fn is_dash_line_exec(b: &[u8], lo: usize, hi: usize) -> (r: bool)
    requires
        lo <= hi <= b@.len(),
    ensures
        r == is_dash_line(b@, lo as int, hi as int),
{
    let (a, z) = trim_range(b, lo, hi);
    let r = z - a == 3 && b[a] == 0x2D && b[a + 1] == 0x2D && b[a + 2] == 0x2D;
    proof {
        let t = b@.subrange(a as int, z as int);
        if r {
            assert(t =~= dashes());
        } else {
            if t == dashes() {
                assert(t.len() == 3);
                assert(t[0] == b@[a as int] && t[1] == b@[a + 1] && t[2] == b@[a + 2]);
                assert(dashes()[0] == 0x2D && dashes()[1] == 0x2D && dashes()[2] == 0x2D);
            }
        }
    }
    r
}

fn frontmatter_bounds_exec(b: &[u8]) -> (r: Option<(usize, usize, usize)>)
    ensures
        match r {
            None => frontmatter_bounds(b@) is None,
            Some(t) => frontmatter_bounds(b@) == Some((t.0 as int, t.1 as int, t.2 as int)),
        },
{
    if b.len() == 0 {
        return None;
    }
    let e1 = line_end_exec(b, 0);
    if !is_dash_line_exec(b, 0, e1) {
        return None;
    }
    let mut c = e1;
    while c < b.len()
        invariant
            0 < e1 <= c <= b@.len(),
            e1 == line_end(b@, 0),
            is_dash_line(b@, 0, e1 as int),
            closing_line(b@, e1 as int) == closing_line(b@, c as int),
        decreases b@.len() - c,
    {
        let e = line_end_exec(b, c);
        if is_dash_line_exec(b, c, e) {
            return Some((e1, c, e));
        }
        c = e;
    }
    None
}

/// Parsed Markdown note with optional frontmatter.
#[derive(Debug, PartialEq, Eq)]
pub struct MarkdownNote {
    note_id: NoteId,
    source: String,
    frontmatter: Option<Frontmatter>,
    body_start: usize,
}

impl MarkdownNote {
    #[verifier::type_invariant]
    spec fn inv(self) -> bool {
        &&& self.body_start <= utf8_bytes(self.source@).len()
        &&& is_char_boundary(utf8_bytes(self.source@), self.body_start as int)
    }

    /// The note source, as bytes.
    pub closed spec fn source_bytes(&self) -> Seq<u8> {
        utf8_bytes(self.source@)
    }

    /// The Markdown content after the frontmatter, as bytes.
    pub closed spec fn body_bytes(&self) -> Seq<u8> {
        utf8_bytes(self.source@).subrange(self.body_start as int, utf8_bytes(self.source@).len() as int)
    }

    /// The fields of the frontmatter block, if the source has a complete one.
    pub closed spec fn fm(&self) -> Option<Seq<(Seq<u8>, ValueView)>> {
        match self.frontmatter {
            None => None,
            Some(f) => Some(f@),
        }
    }

    /// The identifier of the note.
    pub closed spec fn id(&self) -> NoteId {
        self.note_id
    }

    /// Parses a Markdown note from source text.
    ///
    /// A frontmatter block is a first line `---` closed by a later `---` line;
    /// one blank line after it is not part of the body. Without a complete
    /// block the whole source is the body.
    pub fn parse(note_id: NoteId, source: &str) -> (r: MarkdownNote)
        ensures
            r.id() == note_id,
            r.source_bytes() == source.spec_bytes(),
            r.body_bytes() == source.spec_bytes().subrange(
                body_start(source.spec_bytes()),
                source.spec_bytes().len() as int,
            ),
            r.fm() == frontmatter_of(source.spec_bytes()),
    {
        let b = source.as_bytes();
        proof {
            lemma_str_valid(source);
        }
        let owned = to_owned_string(source);
        match frontmatter_bounds_exec(b) {
            None => {
                assert(b@.subrange(0, b@.len() as int) =~= b@);
                MarkdownNote { note_id, source: owned, frontmatter: None, body_start: 0 }
            },
            Some((a, c, e)) => {
                proof {
                    lemma_line_end_boundary(b@, 0);
                    lemma_line_end_closing(b@, a as int);
                }
                let fm = Frontmatter::parse(source, a, c);
                let bs = if e < b.len() && b.len() - e >= 2 && b[e] == 13 && b[e + 1] == 10 {
                    e + 2
                } else if e < b.len() && b[e] == 10 {
                    e + 1
                } else {
                    e
                };
                proof {
                    if bs > e {
                        lemma_after_ascii(b@, bs - 1);
                    }
                }
                MarkdownNote { note_id, source: owned, frontmatter: Some(fm), body_start: bs }
            },
        }
    }

    /// Returns the note identifier.
    pub fn note_id(&self) -> (r: &NoteId)
        ensures
            *r == self.id(),
    {
        &self.note_id
    }

    /// Returns the full note source, frontmatter included.
    pub fn source(&self) -> (r: &str)
        ensures
            r.spec_bytes() == self.source_bytes(),
    {
        self.source.as_str()
    }

    /// Returns the Markdown content after the frontmatter.
    pub fn body(&self) -> (r: &str)
        ensures
            r.spec_bytes() == self.body_bytes(),
    {
        proof {
            use_type_invariant(self);
        }
        let s = self.source.as_str();
        proof {
            lemma_str_valid(s);
            assert(s.spec_bytes() == utf8_bytes(self.source@));
        }
        str_slice(s, self.body_start, s.as_bytes().len())
    }

    /// Returns the parsed frontmatter, when the source has a complete block.
    pub fn frontmatter(&self) -> (r: Option<&Frontmatter>)
        ensures
            match r {
                None => self.fm() is None,
                Some(f) => self.fm() == Some(f@),
            },
    {
        match &self.frontmatter {
            None => None,
            Some(f) => Some(f),
        }
    }
}

/// Every line start reached while looking for the closing line is a boundary,
/// and so are the closing line and its end.
proof fn lemma_line_end_closing(b: Seq<u8>, c: int)
    requires
        valid_utf8(b),
        0 <= c <= b.len(),
        is_char_boundary(b, c),
        closing_line(b, c) != -1,
    ensures
        c <= closing_line(b, c) < b.len(),
        is_char_boundary(b, closing_line(b, c)),
        is_char_boundary(b, line_end(b, closing_line(b, c))),
        closing_line(b, c) < line_end(b, closing_line(b, c)) <= b.len(),
    decreases b.len() - c,
{
    lemma_line_end(b, c);
    lemma_line_end_boundary(b, c);
    if !is_dash_line(b, c, line_end(b, c)) {
        lemma_line_end_closing(b, line_end(b, c));
    }
}


impl Clone for Frontmatter {
    fn clone(&self) -> (r: Frontmatter)
        ensures
            r@ == self@,
    {
        let mut fields: Vec<(String, MetadataValue)> = Vec::new();
        let mut i: usize = 0;
        while i < self.fields.len()
            invariant
                0 <= i <= self.fields@.len(),
                fields@.len() == i,
                fields_view(fields@) == fields_view(self.fields@).take(i as int),
            decreases self.fields@.len() - i,
        {
            let k = self.fields[i].0.clone();
            let v = self.fields[i].1.clone();
            let ghost before = fields@;
            fields.push((k, v));
            proof {
                assert(fields@ == before.push((k, v)));
                assert(fields_view(fields@)[i as int] == fields_view(self.fields@)[i as int]);
                assert(fields_view(fields@) =~= fields_view(self.fields@).take(i + 1));
            }
            i = i + 1;
        }
        assert(fields_view(self.fields@).take(i as int) =~= fields_view(self.fields@));
        Frontmatter { fields }
    }
}

impl Clone for MarkdownNote {
    fn clone(&self) -> (r: MarkdownNote)
        ensures
            r.source_bytes() == self.source_bytes(),
            r.body_bytes() == self.body_bytes(),
            r.fm() == self.fm(),
            r.id().path() == self.id().path(),
            r.id().key() == self.id().key(),
    {
        proof {
            use_type_invariant(self);
        }
        let frontmatter = match &self.frontmatter {
            None => None,
            Some(f) => Some(f.clone()),
        };
        MarkdownNote {
            note_id: self.note_id.clone(),
            source: self.source.clone(),
            frontmatter,
            body_start: self.body_start,
        }
    }
}

} // verus!
