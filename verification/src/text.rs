//! Byte-level view of UTF-8 text.
//!
//! Every piece of text the library parses is modelled by its UTF-8 encoding
//! (`Seq<u8>`). Positions are byte offsets, exactly as Rust's `str` slicing
//! uses them. The lemmas here relate byte offsets to character boundaries so
//! that verified code can slice `&str` values without panicking.
use vstd::prelude::*;
use vstd::utf8::*;
use vstd::string::*;

verus! {

broadcast use vstd::seq::group_seq_axioms;

/// UTF-8 encoding of a character sequence: the model of a `String` or `&str`.
pub open spec fn utf8_bytes(s: Seq<char>) -> Seq<u8> {
    encode_utf8(s)
}

/// Whether `pat` occurs in `b` starting at byte offset `k`.
pub open spec fn matches_at(b: Seq<u8>, k: int, pat: Seq<u8>) -> bool {
    &&& 0 <= k
    &&& k + pat.len() <= b.len()
    &&& b.subrange(k, k + pat.len()) == pat
}

/// First offset `>= from` at which `pat` occurs, or `-1` when there is none.
pub open spec fn find_from(b: Seq<u8>, from: int, pat: Seq<u8>) -> int
    decreases b.len() + 1 - from,
{
    if from < 0 || from + pat.len() > b.len() {
        -1
    } else if matches_at(b, from, pat) {
        from
    } else {
        find_from(b, from + 1, pat)
    }
}

/// Last offset `k` with `k + pat.len() <= to` at which `pat` occurs, or `-1`.
pub open spec fn rfind_before(b: Seq<u8>, to: int, pat: Seq<u8>) -> int
    decreases to,
{
    if to < pat.len() || to > b.len() {
        -1
    } else if matches_at(b, to - pat.len(), pat) {
        to - pat.len()
    } else if to == 0 {
        -1
    } else {
        rfind_before(b, to - 1, pat)
    }
}

/// First offset in `[from, to)` holding byte `c`, or `-1`.
pub open spec fn find_byte(b: Seq<u8>, from: int, to: int, c: u8) -> int
    decreases to - from,
{
    if from < 0 || from >= to || to > b.len() {
        -1
    } else if b[from] == c {
        from
    } else {
        find_byte(b, from + 1, to, c)
    }
}

/// ASCII whitespace bytes accepted by `char::is_whitespace`.
pub open spec fn is_ascii_ws(c: u8) -> bool {
    c == 9 || c == 10 || c == 11 || c == 12 || c == 13 || c == 32
}

/// Three-byte UTF-8 encodings of the Unicode `White_Space` code points
/// U+1680, U+2000..=U+200A, U+2028, U+2029, U+202F, U+205F and U+3000.
pub open spec fn is_ws3(x: u8, y: u8, z: u8) -> bool {
    ||| (x == 0xE1 && y == 0x9A && z == 0x80)
    ||| (x == 0xE2 && y == 0x80 && ((0x80 <= z && z <= 0x8A) || z == 0xA8 || z == 0xA9 || z
        == 0xAF))
    ||| (x == 0xE2 && y == 0x81 && z == 0x9F)
    ||| (x == 0xE3 && y == 0x80 && z == 0x80)
}

/// Byte length of the Unicode whitespace character that starts at `i`
/// (0 when none does). U+0085 and U+00A0 are the two-byte ones.
pub open spec fn ws_len_at(b: Seq<u8>, i: int) -> int {
    if 0 <= i < b.len() && is_ascii_ws(b[i]) {
        1
    } else if 0 <= i && i + 1 < b.len() && b[i] == 0xC2 && (b[i + 1] == 0x85 || b[i + 1]
        == 0xA0) {
        2
    } else if 0 <= i && i + 2 < b.len() && is_ws3(b[i], b[i + 1], b[i + 2]) {
        3
    } else {
        0
    }
}

/// Byte length of the Unicode whitespace character that ends just before `j`.
pub open spec fn ws_len_before(b: Seq<u8>, j: int) -> int {
    if 1 <= j <= b.len() && is_ascii_ws(b[j - 1]) {
        1
    } else if 2 <= j <= b.len() && b[j - 2] == 0xC2 && (b[j - 1] == 0x85 || b[j - 1] == 0xA0) {
        2
    } else if 3 <= j <= b.len() && is_ws3(b[j - 3], b[j - 2], b[j - 1]) {
        3
    } else {
        0
    }
}

/// Offset reached from `i` by skipping whitespace characters, staying below `hi`.
pub open spec fn skip_ws(b: Seq<u8>, i: int, hi: int) -> int
    decreases hi - i,
{
    if i < hi && ws_len_at(b, i) > 0 && i + ws_len_at(b, i) <= hi {
        skip_ws(b, i + ws_len_at(b, i), hi)
    } else {
        i
    }
}

/// Offset reached from `j` by skipping whitespace backwards, staying above `lo`.
pub open spec fn rskip_ws(b: Seq<u8>, lo: int, j: int) -> int
    decreases j - lo,
{
    if j > lo && ws_len_before(b, j) > 0 && j - ws_len_before(b, j) >= lo {
        rskip_ws(b, lo, j - ws_len_before(b, j))
    } else {
        j
    }
}

/// `str::trim` of the byte range `[lo, hi)`: the start of the trimmed range.
pub open spec fn trim_lo(b: Seq<u8>, lo: int, hi: int) -> int {
    skip_ws(b, lo, hi)
}

/// `str::trim` of the byte range `[lo, hi)`: the end of the trimmed range.
pub open spec fn trim_hi(b: Seq<u8>, lo: int, hi: int) -> int {
    rskip_ws(b, skip_ws(b, lo, hi), hi)
}

/// The bytes of `b[lo..hi]` with leading and trailing Unicode whitespace removed.
pub open spec fn trimmed(b: Seq<u8>) -> Seq<u8> {
    b.subrange(trim_lo(b, 0, b.len() as int), trim_hi(b, 0, b.len() as int))
}

/// ASCII lower-casing of one byte.
pub open spec fn ascii_lower(c: u8) -> u8 {
    if 0x41 <= c <= 0x5A {
        (c + 32) as u8
    } else {
        c
    }
}

// ---------------------------------------------------------------------------
// Lemmas
// ---------------------------------------------------------------------------
/// UTF-8 encoding distributes over concatenation.
pub proof fn lemma_encode_concat(a: Seq<char>, b: Seq<char>)
    ensures
        encode_utf8(a + b) == encode_utf8(a) + encode_utf8(b),
    decreases a.len(),
{
    if a.len() == 0 {
        assert(a + b =~= b);
        assert(encode_utf8(a) =~= Seq::<u8>::empty());
        assert(encode_utf8(a) + encode_utf8(b) =~= encode_utf8(b));
    } else {
        lemma_encode_concat(a.drop_first(), b);
        assert((a + b).drop_first() =~= a.drop_first() + b);
        assert((a + b)[0] == a[0]);
        assert(encode_utf8(a + b) =~= encode_scalar(a[0] as u32) + encode_utf8(a.drop_first()
            + b));
        assert(encode_utf8(a) =~= encode_scalar(a[0] as u32) + encode_utf8(a.drop_first()));
    }
}

/// Two character sequences with the same encoding are equal.
pub proof fn lemma_encode_injective(a: Seq<char>, b: Seq<char>)
    requires
        encode_utf8(a) == encode_utf8(b),
    ensures
        a == b,
{
    encode_utf8_decode_utf8(a);
    encode_utf8_decode_utf8(b);
}

/// The encoding of any `&str` is valid UTF-8, and its two ends are boundaries.
pub proof fn lemma_str_valid(s: &str)
    ensures
        valid_utf8(s.spec_bytes()),
        is_char_boundary(s.spec_bytes(), 0),
        is_char_boundary(s.spec_bytes(), s.spec_bytes().len() as int),
{
    encode_utf8_valid_utf8(s@);
    is_char_boundary_start_end_of_seq(s.spec_bytes());
}

/// A byte that is not a continuation byte starts a character.
pub proof fn lemma_boundary_at(b: Seq<u8>, i: int)
    requires
        valid_utf8(b),
        0 <= i <= b.len(),
        i == b.len() || !is_continuation_byte(b[i]),
    ensures
        is_char_boundary(b, i),
{
    if i == b.len() {
        is_char_boundary_start_end_of_seq(b);
    } else {
        is_char_boundary_iff_not_is_continuation_byte(b, i);
    }
}

proof fn lemma_boundary_compose(b: Seq<u8>, i: int, k: int)
    requires
        valid_utf8(b),
        0 <= i <= b.len(),
        0 <= k <= b.len() - i,
        is_char_boundary(b, i),
        valid_utf8(b.subrange(i, b.len() as int)),
        is_char_boundary(b.subrange(i, b.len() as int), k),
    ensures
        is_char_boundary(b, i + k),
    decreases b.len(),
{
    if i == 0 {
        assert(b.subrange(0, b.len() as int) =~= b);
    } else {
        let l = length_of_first_scalar(b);
        let p = pop_first_scalar(b);
        assert(is_char_boundary(p, i - l));
        assert(i - l >= 0);
        assert(p.subrange(i - l, p.len() as int) =~= b.subrange(i, b.len() as int));
        lemma_boundary_compose(p, i - l, k);
    }
}

/// From a character boundary inside `b`, the end of the character that starts
/// there is again a boundary; its width follows from the leading byte.
pub proof fn lemma_next_boundary(b: Seq<u8>, i: int)
    requires
        valid_utf8(b),
        0 <= i < b.len(),
        is_char_boundary(b, i),
    ensures
        is_leading_byte_width_1(b[i]) ==> i + 1 <= b.len() && is_char_boundary(b, i + 1),
        is_leading_byte_width_2(b[i]) ==> i + 2 <= b.len() && is_char_boundary(b, i + 2),
        is_leading_byte_width_3(b[i]) ==> i + 3 <= b.len() && is_char_boundary(b, i + 3),
        is_leading_byte_width_4(b[i]) ==> i + 4 <= b.len() && is_char_boundary(b, i + 4),
{
    let t = b.subrange(i, b.len() as int);
    valid_utf8_split(b, i);
    assert(valid_utf8(t));
    assert(t[0] == b[i]);
    let l = length_of_first_scalar(t);
    assert(valid_first_scalar(t));
    assert(l <= t.len());
    assert(is_char_boundary(t, l)) by {
        reveal_with_fuel(is_char_boundary, 2);
        assert(pop_first_scalar(t).len() == t.len() - l);
    }
    lemma_boundary_compose(b, i, l);
}

/// The offset right after an ASCII byte is a boundary.
pub proof fn lemma_after_ascii(b: Seq<u8>, i: int)
    requires
        valid_utf8(b),
        0 <= i < b.len(),
        b[i] < 0x80,
    ensures
        is_char_boundary(b, i),
        is_char_boundary(b, i + 1),
{
    lemma_boundary_at(b, i);
    lemma_next_boundary(b, i);
}

/// A boundary of `b` at or after `i` is a boundary of the suffix starting at `i`.
pub proof fn lemma_boundary_suffix(b: Seq<u8>, i: int, j: int)
    requires
        valid_utf8(b),
        0 <= i <= j <= b.len(),
        is_char_boundary(b, i),
        is_char_boundary(b, j),
    ensures
        valid_utf8(b.subrange(i, b.len() as int)),
        is_char_boundary(b.subrange(i, b.len() as int), j - i),
    decreases b.len(),
{
    valid_utf8_split(b, i);
    if i == 0 {
        assert(b.subrange(0, b.len() as int) =~= b);
    } else {
        let l = length_of_first_scalar(b);
        let p = pop_first_scalar(b);
        assert(is_char_boundary(p, i - l));
        assert(is_char_boundary(p, j - l));
        assert(p.subrange(i - l, p.len() as int) =~= b.subrange(i, b.len() as int));
        lemma_boundary_suffix(p, i - l, j - l);
    }
}

/// The character that starts at a boundary ends at a boundary; the bytes
/// skipped by `skip_ws` and `rskip_ws` therefore keep boundaries.
pub proof fn lemma_skip_ws_boundary(b: Seq<u8>, i: int, hi: int)
    requires
        valid_utf8(b),
        0 <= i <= hi <= b.len(),
        is_char_boundary(b, i),
    ensures
        i <= skip_ws(b, i, hi) <= hi,
        is_char_boundary(b, skip_ws(b, i, hi)),
    decreases hi - i,
{
    if i < hi && ws_len_at(b, i) > 0 && i + ws_len_at(b, i) <= hi {
        lemma_next_boundary(b, i);
        lemma_skip_ws_boundary(b, i + ws_len_at(b, i), hi);
    }
}

pub proof fn lemma_rskip_ws_boundary(b: Seq<u8>, lo: int, j: int)
    requires
        valid_utf8(b),
        0 <= lo <= j <= b.len(),
        is_char_boundary(b, j),
    ensures
        lo <= rskip_ws(b, lo, j) <= j,
        is_char_boundary(b, rskip_ws(b, lo, j)),
    decreases j - lo,
{
    if j > lo && ws_len_before(b, j) > 0 && j - ws_len_before(b, j) >= lo {
        let w = ws_len_before(b, j);
        lemma_boundary_at(b, j - w);
        lemma_rskip_ws_boundary(b, lo, j - w);
    }
}

/// The encoding of a revealed ASCII literal is its characters as bytes.
pub proof fn lemma_ascii_str(s: &str)
    requires
        is_ascii_chars(s@),
    ensures
        s.spec_bytes().len() == s@.len(),
        forall|i: int| 0 <= i < s@.len() ==> s.spec_bytes()[i] == s@[i] as u8,
{
    is_ascii_chars_encode_utf8(s@);
}

// ---------------------------------------------------------------------------
// Executable helpers
// ---------------------------------------------------------------------------
/// The sub-slice `s[from..to]`.
pub fn str_slice(s: &str, from: usize, to: usize) -> (r: &str)
    requires
        from <= to <= s.spec_bytes().len(),
        is_char_boundary(s.spec_bytes(), from as int),
        is_char_boundary(s.spec_bytes(), to as int),
    ensures
        r.spec_bytes() == s.spec_bytes().subrange(from as int, to as int),
{
    proof {
        lemma_str_valid(s);
    }
    let (_, tail) = s.split_at(from);
    proof {
        lemma_boundary_suffix(s.spec_bytes(), from as int, to as int);
        assert(tail.spec_bytes() =~= s.spec_bytes().subrange(from as int, s.spec_bytes().len() as int));
    }
    let (mid, _) = tail.split_at(to - from);
    assert(mid.spec_bytes() =~= s.spec_bytes().subrange(from as int, to as int));
    mid
}

/// An owned copy of `s[from..to]`.
pub fn owned_slice(s: &str, from: usize, to: usize) -> (r: String)
    requires
        from <= to <= s.spec_bytes().len(),
        is_char_boundary(s.spec_bytes(), from as int),
        is_char_boundary(s.spec_bytes(), to as int),
    ensures
        utf8_bytes(r@) == s.spec_bytes().subrange(from as int, to as int),
{
    let piece = str_slice(s, from, to);
    piece.to_owned()
}

/// Appends `piece` to `out`.
pub fn push_str(out: &mut String, piece: &str)
    ensures
        utf8_bytes(final(out)@) == utf8_bytes(old(out)@) + piece.spec_bytes(),
{
    out.append(piece);
    proof {
        lemma_encode_concat(old(out)@, piece@);
    }
}

/// An owned copy of `s`.
pub fn to_owned_string(s: &str) -> (r: String)
    ensures
        utf8_bytes(r@) == s.spec_bytes(),
        r@ == s@,
{
    s.to_owned()
}

/// Byte-wise equality of two slices.
pub fn bytes_eq(a: &[u8], b: &[u8]) -> (r: bool)
    ensures
        r == (a@ == b@),
{
    if a.len() != b.len() {
        return false;
    }
    let mut i: usize = 0;
    while i < a.len()
        invariant
            a@.len() == b@.len(),
            0 <= i <= a@.len(),
            forall|j: int| 0 <= j < i ==> a@[j] == b@[j],
        decreases a@.len() - i,
    {
        if a[i] != b[i] {
            return false;
        }
        i = i + 1;
    }
    assert(a@ =~= b@);
    true
}

/// Equality of two strings, compared through their encodings.
pub fn str_eq(a: &str, b: &str) -> (r: bool)
    ensures
        r == (a.spec_bytes() == b.spec_bytes()),
        r == (a@ == b@),
{
    let r = bytes_eq(a.as_bytes(), b.as_bytes());
    proof {
        if a.spec_bytes() == b.spec_bytes() {
            lemma_encode_injective(a@, b@);
        }
    }
    r
}

/// Whether `pat` occurs in `b` at offset `k`.
pub fn matches_at_exec(b: &[u8], k: usize, pat: &[u8]) -> (r: bool)
    ensures
        r == matches_at(b@, k as int, pat@),
{
    if k > b.len() || pat.len() > b.len() - k {
        return false;
    }
    let n = b.len();
    let mut i: usize = 0;
    while i < pat.len()
        invariant
            n == b@.len(),
            k + pat@.len() <= b@.len(),
            0 <= i <= pat@.len(),
            forall|j: int| 0 <= j < i ==> b@[k + j] == pat@[j],
        decreases pat@.len() - i,
    {
        if b[k + i] != pat[i] {
            assert(b@.subrange(k as int, k + pat@.len())[i as int] != pat@[i as int]);
            return false;
        }
        i = i + 1;
    }
    assert(b@.subrange(k as int, k + pat@.len()) =~= pat@);
    true
}

pub proof fn lemma_find_from_skip(b: Seq<u8>, from: int, k: int, pat: Seq<u8>)
    requires
        0 <= from <= k,
        forall|j: int| from <= j < k ==> !matches_at(b, j, pat),
    ensures
        find_from(b, from, pat) == find_from(b, k, pat),
    decreases k - from,
{
    if from < k {
        if from + pat.len() > b.len() {
            assert(find_from(b, k, pat) == -1);
        } else {
            lemma_find_from_skip(b, from + 1, k, pat);
        }
    }
}

pub proof fn lemma_find_from_props(b: Seq<u8>, from: int, pat: Seq<u8>)
    requires
        0 <= from,
    ensures
        find_from(b, from, pat) == -1 || (from <= find_from(b, from, pat) && matches_at(
            b,
            find_from(b, from, pat),
            pat,
        )),
        find_from(b, from, pat) == -1 ==> forall|j: int| from <= j ==> !matches_at(b, j, pat),
        find_from(b, from, pat) != -1 ==> forall|j: int|
            from <= j < find_from(b, from, pat) ==> !matches_at(b, j, pat),
    decreases b.len() + 1 - from,
{
    if from + pat.len() > b.len() {
    } else if matches_at(b, from, pat) {
    } else {
        lemma_find_from_props(b, from + 1, pat);
    }
}

/// `find_from` on a byte slice: the first occurrence of `pat` at or after `from`.
pub fn find_pat(b: &[u8], from: usize, pat: &[u8]) -> (r: Option<usize>)
    ensures
        match r {
            Some(k) => find_from(b@, from as int, pat@) == k as int,
            None => find_from(b@, from as int, pat@) == -1,
        },
{
    if pat.len() > b.len() || from > b.len() - pat.len() {
        return None;
    }
    let last = b.len() - pat.len();
    let mut k = from;
    loop
        invariant
            from <= k <= last,
            last + pat@.len() == b@.len(),
            find_from(b@, from as int, pat@) == find_from(b@, k as int, pat@),
        decreases last - k,
    {
        if matches_at_exec(b, k, pat) {
            return Some(k);
        }
        if k == last {
            assert(find_from(b@, k as int + 1, pat@) == -1);
            return None;
        }
        k = k + 1;
    }
}

pub proof fn lemma_rfind_props(b: Seq<u8>, to: int, pat: Seq<u8>)
    requires
        0 <= to <= b.len(),
    ensures
        rfind_before(b, to, pat) == -1 || (0 <= rfind_before(b, to, pat) && rfind_before(b, to, pat)
            + pat.len() <= to && matches_at(b, rfind_before(b, to, pat), pat)),
        rfind_before(b, to, pat) == -1 ==> forall|j: int|
            0 <= j && j + pat.len() <= to ==> !matches_at(b, j, pat),
        rfind_before(b, to, pat) != -1 ==> forall|j: int|
            rfind_before(b, to, pat) < j && j + pat.len() <= to ==> !matches_at(b, j, pat),
    decreases to,
{
    if to < pat.len() {
    } else if matches_at(b, to - pat.len(), pat) {
    } else if to == 0 {
    } else {
        lemma_rfind_props(b, to - 1, pat);
    }
}

/// `rfind_before` on a byte slice: the last occurrence of `pat` ending at or before `to`.
pub fn rfind_pat(b: &[u8], to: usize, pat: &[u8]) -> (r: Option<usize>)
    requires
        to <= b@.len(),
    ensures
        match r {
            Some(k) => rfind_before(b@, to as int, pat@) == k as int,
            None => rfind_before(b@, to as int, pat@) == -1,
        },
{
    let mut end = to;
    while end >= pat.len()
        invariant
            end <= to <= b@.len(),
            rfind_before(b@, to as int, pat@) == rfind_before(b@, end as int, pat@),
        decreases end,
    {
        if matches_at_exec(b, end - pat.len(), pat) {
            return Some(end - pat.len());
        }
        if end == 0 {
            return None;
        }
        end = end - 1;
    }
    None
}

pub proof fn lemma_find_byte_props(b: Seq<u8>, from: int, to: int, c: u8)
    requires
        0 <= from,
        to <= b.len(),
    ensures
        find_byte(b, from, to, c) == -1 || (from <= find_byte(b, from, to, c) < to && b[find_byte(
            b,
            from,
            to,
            c,
        )] == c),
        find_byte(b, from, to, c) == -1 ==> forall|j: int| from <= j < to ==> b[j] != c,
        find_byte(b, from, to, c) != -1 ==> forall|j: int|
            from <= j < find_byte(b, from, to, c) ==> b[j] != c,
    decreases to - from,
{
    if from >= to {
    } else if b[from] == c {
    } else {
        lemma_find_byte_props(b, from + 1, to, c);
    }
}

/// First offset in `[from, to)` holding `c`.
pub fn find_byte_exec(b: &[u8], from: usize, to: usize, c: u8) -> (r: Option<usize>)
    requires
        to <= b@.len(),
    ensures
        match r {
            Some(k) => find_byte(b@, from as int, to as int, c) == k as int,
            None => find_byte(b@, from as int, to as int, c) == -1,
        },
{
    let mut k = from;
    while k < to
        invariant
            from <= k,
            to <= b@.len(),
            find_byte(b@, from as int, to as int, c) == find_byte(b@, k as int, to as int, c),
        decreases to - k,
    {
        if b[k] == c {
            return Some(k);
        }
        k = k + 1;
    }
    None
}

/// Length of the whitespace character starting at `i` (see `ws_len_at`).
pub fn ws_len_at_exec(b: &[u8], i: usize) -> (r: usize)
    ensures
        r == ws_len_at(b@, i as int),
{
    let n = b.len();
    if i < n && (b[i] == 9 || b[i] == 10 || b[i] == 11 || b[i] == 12 || b[i] == 13 || b[i] == 32) {
        1
    } else if i < n && n - i > 1 && b[i] == 0xC2 && (b[i + 1] == 0x85 || b[i + 1] == 0xA0) {
        2
    } else if i < n && n - i > 2 && ws3_exec(b[i], b[i + 1], b[i + 2]) {
        3
    } else {
        0
    }
}

fn ws3_exec(x: u8, y: u8, z: u8) -> (r: bool)
    ensures
        r == is_ws3(x, y, z),
{
    (x == 0xE1 && y == 0x9A && z == 0x80) || (x == 0xE2 && y == 0x80 && ((0x80 <= z && z <= 0x8A)
        || z == 0xA8 || z == 0xA9 || z == 0xAF)) || (x == 0xE2 && y == 0x81 && z == 0x9F) || (x
        == 0xE3 && y == 0x80 && z == 0x80)
}

/// Length of the whitespace character ending just before `j` (see `ws_len_before`).
pub fn ws_len_before_exec(b: &[u8], j: usize) -> (r: usize)
    requires
        j <= b@.len(),
    ensures
        r == ws_len_before(b@, j as int),
{
    if j >= 1 && (b[j - 1] == 9 || b[j - 1] == 10 || b[j - 1] == 11 || b[j - 1] == 12 || b[j - 1]
        == 13 || b[j - 1] == 32) {
        1
    } else if j >= 2 && b[j - 2] == 0xC2 && (b[j - 1] == 0x85 || b[j - 1] == 0xA0) {
        2
    } else if j >= 3 && ws3_exec(b[j - 3], b[j - 2], b[j - 1]) {
        3
    } else {
        0
    }
}

/// `skip_ws` on a slice.
pub fn skip_ws_exec(b: &[u8], i: usize, hi: usize) -> (r: usize)
    requires
        i <= hi <= b@.len(),
    ensures
        r == skip_ws(b@, i as int, hi as int),
        i <= r <= hi,
{
    let mut k = i;
    while k < hi
        invariant
            i <= k <= hi <= b@.len(),
            skip_ws(b@, i as int, hi as int) == skip_ws(b@, k as int, hi as int),
        decreases hi - k,
    {
        let w = ws_len_at_exec(b, k);
        if w == 0 || w > hi - k {
            return k;
        }
        k = k + w;
    }
    k
}

/// `rskip_ws` on a slice.
pub fn rskip_ws_exec(b: &[u8], lo: usize, j: usize) -> (r: usize)
    requires
        lo <= j <= b@.len(),
    ensures
        r == rskip_ws(b@, lo as int, j as int),
        lo <= r <= j,
{
    let mut k = j;
    while k > lo
        invariant
            lo <= k <= j <= b@.len(),
            rskip_ws(b@, lo as int, j as int) == rskip_ws(b@, lo as int, k as int),
        decreases k - lo,
    {
        let w = ws_len_before_exec(b, k);
        if w == 0 || w > k - lo {
            return k;
        }
        k = k - w;
    }
    k
}

/// The trimmed sub-range of `[lo, hi)`.
pub fn trim_range(b: &[u8], lo: usize, hi: usize) -> (r: (usize, usize))
    requires
        lo <= hi <= b@.len(),
    ensures
        r.0 == trim_lo(b@, lo as int, hi as int),
        r.1 == trim_hi(b@, lo as int, hi as int),
        lo <= r.0 <= r.1 <= hi,
{
    let a = skip_ws_exec(b, lo, hi);
    let e = rskip_ws_exec(b, a, hi);
    (a, e)
}

/// `str::trim`, as an owned string.
pub fn trim_owned(s: &str) -> (r: String)
    ensures
        utf8_bytes(r@) == trimmed(s.spec_bytes()),
{
    let b = s.as_bytes();
    let (a, e) = trim_range(b, 0, b.len());
    proof {
        lemma_str_valid(s);
        lemma_skip_ws_boundary(b@, 0, b@.len() as int);
        lemma_rskip_ws_boundary(b@, a as int, b@.len() as int);
    }
    owned_slice(s, a, e)
}


/// Offset just past the line that starts at `pos`: after its `\n`, or the end.
pub open spec fn line_end(b: Seq<u8>, pos: int) -> int {
    let k = find_byte(b, pos, b.len() as int, 10);
    if k == -1 {
        b.len() as int
    } else {
        k + 1
    }
}

pub proof fn lemma_line_end(b: Seq<u8>, pos: int)
    requires
        0 <= pos < b.len(),
    ensures
        pos < line_end(b, pos) <= b.len(),
        forall|j: int| pos <= j < line_end(b, pos) - 1 ==> b[j] != 10,
        line_end(b, pos) < b.len() ==> b[line_end(b, pos) - 1] == 10,
        line_end(b, pos) == b.len() ==> (b[b.len() - 1] == 10 || forall|j: int| pos <= j < b.len() ==> b[j] != 10),
{
    lemma_find_byte_props(b, pos, b.len() as int, 10);
}

/// `line_end` on a slice.
pub fn line_end_exec(b: &[u8], pos: usize) -> (r: usize)
    requires
        pos < b@.len(),
    ensures
        r as int == line_end(b@, pos as int),
        pos < r <= b@.len(),
{
    proof {
        lemma_line_end(b@, pos as int);
    }
    match find_byte_exec(b, pos, b.len(), 10) {
        Some(k) => k + 1,
        None => b.len(),
    }
}

/// Trimming a range between two boundaries yields boundaries.
pub proof fn lemma_trim_boundaries(b: Seq<u8>, lo: int, hi: int)
    requires
        valid_utf8(b),
        0 <= lo <= hi <= b.len(),
        is_char_boundary(b, lo),
        is_char_boundary(b, hi),
    ensures
        lo <= trim_lo(b, lo, hi) <= trim_hi(b, lo, hi) <= hi,
        is_char_boundary(b, trim_lo(b, lo, hi)),
        is_char_boundary(b, trim_hi(b, lo, hi)),
{
    lemma_skip_ws_boundary(b, lo, hi);
    lemma_rskip_ws_boundary(b, trim_lo(b, lo, hi), hi);
}

/// The end of a line is a character boundary.
pub proof fn lemma_line_end_boundary(b: Seq<u8>, pos: int)
    requires
        valid_utf8(b),
        0 <= pos < b.len(),
    ensures
        is_char_boundary(b, line_end(b, pos)),
{
    lemma_line_end(b, pos);
    if line_end(b, pos) < b.len() {
        lemma_after_ascii(b, line_end(b, pos) - 1);
    } else {
        lemma_boundary_at(b, b.len() as int);
    }
}

/// First offset `k >= from` with `k + pat.len() <= to` where `pat` occurs, or `-1`.
pub open spec fn find_within(b: Seq<u8>, from: int, to: int, pat: Seq<u8>) -> int
    decreases to - from + 1,
{
    if from < 0 || from + pat.len() > to || to > b.len() {
        -1
    } else if matches_at(b, from, pat) {
        from
    } else {
        find_within(b, from + 1, to, pat)
    }
}

pub proof fn lemma_find_within(b: Seq<u8>, from: int, to: int, pat: Seq<u8>)
    requires
        0 <= from,
        to <= b.len(),
    ensures
        find_within(b, from, to, pat) == -1 ==> forall|j: int|
            from <= j && j + pat.len() <= to ==> !matches_at(b, j, pat),
        find_within(b, from, to, pat) != -1 ==> from <= find_within(b, from, to, pat) && find_within(
            b,
            from,
            to,
            pat,
        ) + pat.len() <= to && matches_at(b, find_within(b, from, to, pat), pat),
        find_within(b, from, to, pat) != -1 ==> forall|j: int|
            from <= j < find_within(b, from, to, pat) ==> !matches_at(b, j, pat),
    decreases to - from + 1,
{
    if from + pat.len() > to {
    } else if matches_at(b, from, pat) {
    } else {
        lemma_find_within(b, from + 1, to, pat);
    }
}

/// `find_within` on a slice.
pub fn find_within_exec(b: &[u8], from: usize, to: usize, pat: &[u8]) -> (r: Option<usize>)
    requires
        to <= b@.len(),
    ensures
        match r {
            Some(k) => find_within(b@, from as int, to as int, pat@) == k as int,
            None => find_within(b@, from as int, to as int, pat@) == -1,
        },
{
    let mut k = from;
    while k <= to && pat.len() <= to - k
        invariant
            from <= k,
            to <= b@.len(),
            find_within(b@, from as int, to as int, pat@) == find_within(b@, k as int, to as int, pat@),
        decreases to - k + 1,
    {
        if matches_at_exec(b, k, pat) {
            return Some(k);
        }
        if k == to {
            assert(find_within(b@, k + 1, to as int, pat@) == -1);
            return None;
        }
        k = k + 1;
    }
    None
}

/// Length of the run of byte `c` starting at `p`, staying below `end`.
pub open spec fn run_len(b: Seq<u8>, p: int, end: int, c: u8) -> int
    decreases end - p,
{
    if p < 0 || p >= end || end > b.len() || b[p] != c {
        0
    } else {
        1 + run_len(b, p + 1, end, c)
    }
}

pub proof fn lemma_run_len(b: Seq<u8>, p: int, end: int, c: u8)
    requires
        0 <= p,
        end <= b.len(),
    ensures
        0 <= run_len(b, p, end, c),
        p <= end ==> p + run_len(b, p, end, c) <= end,
        forall|j: int| p <= j < p + run_len(b, p, end, c) ==> b[j] == c,
        p + run_len(b, p, end, c) < end ==> b[p + run_len(b, p, end, c)] != c,
    decreases end - p,
{
    if p < end && b[p] == c {
        lemma_run_len(b, p + 1, end, c);
    }
}

/// `run_len` on a slice.
pub fn run_len_exec(b: &[u8], p: usize, end: usize, c: u8) -> (r: usize)
    requires
        p <= end <= b@.len(),
    ensures
        r as int == run_len(b@, p as int, end as int, c),
        p + r <= end,
{
    proof {
        lemma_run_len(b@, p as int, end as int, c);
    }
    let mut k = p;
    while k < end && b[k] == c
        invariant
            p <= k <= end <= b@.len(),
            run_len(b@, p as int, end as int, c) == (k - p) + run_len(b@, k as int, end as int, c),
        decreases end - k,
    {
        k = k + 1;
    }
    k - p
}

/// End of `b[lo..hi]` with trailing `\r` and `\n` bytes removed.
pub open spec fn content_end(b: Seq<u8>, lo: int, hi: int) -> int
    decreases hi - lo,
{
    if hi > lo && 0 < hi <= b.len() && (b[hi - 1] == 13 || b[hi - 1] == 10) {
        content_end(b, lo, hi - 1)
    } else {
        hi
    }
}

pub proof fn lemma_content_end(b: Seq<u8>, lo: int, hi: int)
    requires
        0 <= lo <= hi <= b.len(),
    ensures
        lo <= content_end(b, lo, hi) <= hi,
        forall|j: int| content_end(b, lo, hi) <= j < hi ==> b[j] == 13 || b[j] == 10,
        content_end(b, lo, hi) > lo ==> b[content_end(b, lo, hi) - 1] != 13 && b[content_end(b, lo, hi) - 1] != 10,
    decreases hi - lo,
{
    if hi > lo && (b[hi - 1] == 13 || b[hi - 1] == 10) {
        lemma_content_end(b, lo, hi - 1);
    }
}

/// `content_end` on a slice.
pub fn content_end_exec(b: &[u8], lo: usize, hi: usize) -> (r: usize)
    requires
        lo <= hi <= b@.len(),
    ensures
        r as int == content_end(b@, lo as int, hi as int),
        lo <= r <= hi,
{
    proof {
        lemma_content_end(b@, lo as int, hi as int);
    }
    let mut k = hi;
    while k > lo && (b[k - 1] == 13 || b[k - 1] == 10)
        invariant
            lo <= k <= hi <= b@.len(),
            content_end(b@, lo as int, hi as int) == content_end(b@, lo as int, k as int),
        decreases k - lo,
    {
        k = k - 1;
    }
    k
}

} // verus!
