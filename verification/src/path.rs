//! Unix path semantics on UTF-8 bytes: components, file names, stems,
//! extensions and ordering, matching `std::path::Path` for relative paths.
use vstd::prelude::*;
use vstd::string::*;
use vstd::utf8::*;
use crate::text::{
    utf8_bytes, find_byte, rfind_before, ascii_lower, lemma_find_byte_props, lemma_str_valid,
    lemma_after_ascii, lemma_boundary_at, find_byte_exec, owned_slice, rfind_pat, lemma_rfind_props,
};

verus! {

broadcast use vstd::seq::group_seq_axioms;

pub open spec fn slash() -> u8 {
    0x2F
}

pub open spec fn dot_seg() -> Seq<u8> {
    seq![0x2Eu8]
}

pub open spec fn dotdot_seg() -> Seq<u8> {
    seq![0x2Eu8, 0x2Eu8]
}

/// End of the `/`-separated segment that starts at `pos`.
pub open spec fn seg_end(b: Seq<u8>, pos: int) -> int {
    let k = find_byte(b, pos, b.len() as int, slash());
    if k == -1 {
        b.len() as int
    } else {
        k
    }
}

/// The normal components of `b[pos..]`: `/`-separated segments with empty and
/// `.` segments left out (as `Path::components` does after the first one).
pub open spec fn components_from(b: Seq<u8>, pos: int) -> Seq<Seq<u8>>
    decreases b.len() - pos,
{
    if pos < 0 || pos > b.len() {
        Seq::empty()
    } else {
        let k = find_byte(b, pos, b.len() as int, slash());
        proof {
            lemma_find_byte_props(b, pos, b.len() as int, slash());
        }
        let head = b.subrange(pos, seg_end(b, pos));
        let rest = if k == -1 {
            Seq::<Seq<u8>>::empty()
        } else {
            components_from(b, k + 1)
        };
        if head.len() == 0 || head == dot_seg() {
            rest
        } else {
            seq![head] + rest
        }
    }
}

/// Whether some segment of `b[pos..]` is `..`.
pub open spec fn has_dotdot_from(b: Seq<u8>, pos: int) -> bool
    decreases b.len() - pos,
{
    if pos < 0 || pos > b.len() {
        false
    } else {
        let k = find_byte(b, pos, b.len() as int, slash());
        proof {
            lemma_find_byte_props(b, pos, b.len() as int, slash());
        }
        let head = b.subrange(pos, seg_end(b, pos));
        head == dotdot_seg() || (k != -1 && has_dotdot_from(b, k + 1))
    }
}

/// Whether some `/`-separated segment of `b[pos..]` is `.`.
pub open spec fn has_dot_from(b: Seq<u8>, pos: int) -> bool
    decreases b.len() - pos,
{
    if pos < 0 || pos > b.len() {
        false
    } else {
        let k = find_byte(b, pos, b.len() as int, slash());
        proof {
            lemma_find_byte_props(b, pos, b.len() as int, slash());
        }
        let head = b.subrange(pos, seg_end(b, pos));
        head == dot_seg() || (k != -1 && has_dot_from(b, k + 1))
    }
}

/// The components of a relative path.
pub open spec fn path_components(b: Seq<u8>) -> Seq<Seq<u8>> {
    components_from(b, 0)
}

/// `Path::file_stem` / `Path::extension` split of a file name: the offset of the
/// dot that separates the extension, or `-1` when there is no extension.
pub open spec fn ext_dot(name: Seq<u8>) -> int {
    let d = rfind_before(name, name.len() as int, dot_seg());
    if name == dotdot_seg() || d <= 0 {
        -1
    } else {
        d
    }
}

/// The stem of a file name.
pub open spec fn name_stem(name: Seq<u8>) -> Seq<u8> {
    if ext_dot(name) == -1 {
        name
    } else {
        name.subrange(0, ext_dot(name))
    }
}

/// The extension of a file name, if any.
pub open spec fn name_extension(name: Seq<u8>) -> Option<Seq<u8>> {
    if ext_dot(name) == -1 {
        None
    } else {
        Some(name.subrange(ext_dot(name) + 1, name.len() as int))
    }
}

/// Case-insensitive (ASCII) equality of `x` with the lowercase ASCII word `lower`.
pub open spec fn eq_ignore_ascii_case(x: Seq<u8>, lower: Seq<u8>) -> bool {
    &&& x.len() == lower.len()
    &&& forall|i: int| 0 <= i < x.len() ==> ascii_lower(#[trigger] x[i]) == lower[i]
}

pub open spec fn md_ext() -> Seq<u8> {
    seq![0x6Du8, 0x64u8]
}

/// Whether a file name has a `.md` extension in any ASCII case.
pub open spec fn has_md_extension(name: Seq<u8>) -> bool {
    match name_extension(name) {
        Some(e) => eq_ignore_ascii_case(e, md_ext()),
        None => false,
    }
}

/// Lexicographic byte comparison from offset `i`: -1, 0 or 1.
pub open spec fn bytes_order_from(a: Seq<u8>, b: Seq<u8>, i: int) -> int
    decreases a.len() - i,
{
    if i < 0 || i >= a.len() {
        if i >= 0 && i < b.len() {
            -1
        } else {
            0
        }
    } else if i >= b.len() {
        1
    } else if a[i] < b[i] {
        -1
    } else if a[i] > b[i] {
        1
    } else {
        bytes_order_from(a, b, i + 1)
    }
}

/// Lexicographic comparison of two byte strings (the order of `str`).
pub open spec fn bytes_order(a: Seq<u8>, b: Seq<u8>) -> int {
    bytes_order_from(a, b, 0)
}

/// Lexicographic comparison of component lists from index `i`.
pub open spec fn comps_order_from(a: Seq<Seq<u8>>, b: Seq<Seq<u8>>, i: int) -> int
    decreases a.len() - i,
{
    if i < 0 || i >= a.len() {
        if i >= 0 && i < b.len() {
            -1
        } else {
            0
        }
    } else if i >= b.len() {
        1
    } else if bytes_order(a[i], b[i]) != 0 {
        bytes_order(a[i], b[i])
    } else {
        comps_order_from(a, b, i + 1)
    }
}

/// Lexicographic comparison of component lists (the order of `Path`).
pub open spec fn comps_order(a: Seq<Seq<u8>>, b: Seq<Seq<u8>>) -> int {
    comps_order_from(a, b, 0)
}

/// The byte models of a list of strings.
pub open spec fn strings_bytes(v: Seq<String>) -> Seq<Seq<u8>> {
    v.map_values(|s: String| utf8_bytes(s@))
}

/// `strings_bytes` of a pushed list.
pub proof fn lemma_strings_bytes_push(v: Seq<String>, s: String)
    ensures
        strings_bytes(v.push(s)) == strings_bytes(v).push(utf8_bytes(s@)),
{
    assert(strings_bytes(v.push(s)) =~= strings_bytes(v).push(utf8_bytes(s@)));
}

// ---------------------------------------------------------------------------
// Lemmas about the orders
// ---------------------------------------------------------------------------
pub proof fn lemma_bytes_order_from_eq(a: Seq<u8>, b: Seq<u8>, i: int)
    requires
        0 <= i <= a.len(),
        i <= b.len(),
    ensures
        bytes_order_from(a, b, i) == 0 <==> a.subrange(i, a.len() as int) == b.subrange(
            i,
            b.len() as int,
        ),
        bytes_order_from(a, b, i) == -bytes_order_from(b, a, i),
    decreases a.len() - i,
{
    if i == a.len() {
        if i < b.len() {
            assert(b.subrange(i, b.len() as int).len() > 0);
        } else {
            assert(a.subrange(i, a.len() as int) =~= b.subrange(i, b.len() as int));
        }
    } else if i == b.len() {
        assert(a.subrange(i, a.len() as int).len() > 0);
    } else if a[i] != b[i] {
        assert(a.subrange(i, a.len() as int)[0] == a[i]);
        assert(b.subrange(i, b.len() as int)[0] == b[i]);
    } else {
        lemma_bytes_order_from_eq(a, b, i + 1);
        if a.subrange(i + 1, a.len() as int) == b.subrange(i + 1, b.len() as int) {
            assert(a.subrange(i, a.len() as int) =~= seq![a[i]] + a.subrange(i + 1, a.len() as int));
            assert(b.subrange(i, b.len() as int) =~= seq![b[i]] + b.subrange(i + 1, b.len() as int));
        }
        if a.subrange(i, a.len() as int) == b.subrange(i, b.len() as int) {
            assert(a.subrange(i + 1, a.len() as int) =~= a.subrange(i, a.len() as int).drop_first());
            assert(b.subrange(i + 1, b.len() as int) =~= b.subrange(i, b.len() as int).drop_first());
        }
    }
}

/// `bytes_order` is zero exactly on equal strings and is antisymmetric.
pub proof fn lemma_bytes_order(a: Seq<u8>, b: Seq<u8>)
    ensures
        bytes_order(a, b) == 0 <==> a == b,
        bytes_order(a, b) == -bytes_order(b, a),
        -1 <= bytes_order(a, b) <= 1,
{
    lemma_bytes_order_from_eq(a, b, 0);
    lemma_bytes_order_range(a, b, 0);
    assert(a.subrange(0, a.len() as int) =~= a);
    assert(b.subrange(0, b.len() as int) =~= b);
    if a.len() == 0 && b.len() == 0 {
        assert(a =~= b);
    }
}

proof fn lemma_bytes_order_range(a: Seq<u8>, b: Seq<u8>, i: int)
    ensures
        -1 <= bytes_order_from(a, b, i) <= 1,
    decreases a.len() - i,
{
    if i < 0 || i >= a.len() || i >= b.len() || a[i] != b[i] {
    } else {
        lemma_bytes_order_range(a, b, i + 1);
    }
}

/// `bytes_order` is transitive.
pub proof fn lemma_bytes_order_trans(a: Seq<u8>, b: Seq<u8>, c: Seq<u8>, i: int)
    requires
        0 <= i,
        bytes_order_from(a, b, i) <= 0,
        bytes_order_from(b, c, i) <= 0,
    ensures
        bytes_order_from(a, c, i) <= 0,
        bytes_order_from(a, b, i) < 0 || bytes_order_from(b, c, i) < 0 ==> bytes_order_from(a, c, i) < 0,
    decreases a.len() - i,
{
    if i >= a.len() {
    } else if i >= b.len() {
    } else if i >= c.len() {
    } else if a[i] == b[i] && b[i] == c[i] {
        lemma_bytes_order_trans(a, b, c, i + 1);
    }
}

pub proof fn lemma_comps_order_from(a: Seq<Seq<u8>>, b: Seq<Seq<u8>>, i: int)
    requires
        0 <= i <= a.len(),
        i <= b.len(),
    ensures
        comps_order_from(a, b, i) == -comps_order_from(b, a, i),
        -1 <= comps_order_from(a, b, i) <= 1,
        comps_order_from(a, b, i) == 0 <==> a.subrange(i, a.len() as int) == b.subrange(
            i,
            b.len() as int,
        ),
    decreases a.len() - i,
{
    if i == a.len() {
        if i < b.len() {
            assert(b.subrange(i, b.len() as int).len() > 0);
        } else {
            assert(a.subrange(i, a.len() as int) =~= b.subrange(i, b.len() as int));
        }
    } else if i == b.len() {
        assert(a.subrange(i, a.len() as int).len() > 0);
    } else {
        lemma_bytes_order(a[i], b[i]);
        if bytes_order(a[i], b[i]) != 0 {
            assert(a.subrange(i, a.len() as int)[0] == a[i]);
            assert(b.subrange(i, b.len() as int)[0] == b[i]);
        } else {
            lemma_comps_order_from(a, b, i + 1);
            if a.subrange(i + 1, a.len() as int) == b.subrange(i + 1, b.len() as int) {
                assert(a.subrange(i, a.len() as int) =~= seq![a[i]] + a.subrange(
                    i + 1,
                    a.len() as int,
                ));
                assert(b.subrange(i, b.len() as int) =~= seq![b[i]] + b.subrange(
                    i + 1,
                    b.len() as int,
                ));
            }
            if a.subrange(i, a.len() as int) == b.subrange(i, b.len() as int) {
                assert(a.subrange(i + 1, a.len() as int) =~= a.subrange(
                    i,
                    a.len() as int,
                ).drop_first());
                assert(b.subrange(i + 1, b.len() as int) =~= b.subrange(
                    i,
                    b.len() as int,
                ).drop_first());
            }
        }
    }
}

/// `comps_order` is zero exactly on equal lists, antisymmetric and in {-1, 0, 1}.
pub proof fn lemma_comps_order(a: Seq<Seq<u8>>, b: Seq<Seq<u8>>)
    ensures
        comps_order(a, b) == 0 <==> a == b,
        comps_order(a, b) == -comps_order(b, a),
        -1 <= comps_order(a, b) <= 1,
{
    lemma_comps_order_from(a, b, 0);
    assert(a.subrange(0, a.len() as int) =~= a);
    assert(b.subrange(0, b.len() as int) =~= b);
    if a.len() == 0 && b.len() == 0 {
        assert(a =~= b);
    }
}

/// `comps_order` is transitive.
pub proof fn lemma_comps_order_trans(a: Seq<Seq<u8>>, b: Seq<Seq<u8>>, c: Seq<Seq<u8>>, i: int)
    requires
        0 <= i,
        comps_order_from(a, b, i) <= 0,
        comps_order_from(b, c, i) <= 0,
    ensures
        comps_order_from(a, c, i) <= 0,
        comps_order_from(a, b, i) < 0 || comps_order_from(b, c, i) < 0 ==> comps_order_from(a, c, i) < 0,
    decreases a.len() - i,
{
    if i >= a.len() {
    } else if i >= b.len() {
    } else if i >= c.len() {
    } else {
        lemma_bytes_order(a[i], b[i]);
        lemma_bytes_order(b[i], c[i]);
        lemma_bytes_order(a[i], c[i]);
        lemma_bytes_order_range(a[i], b[i], 0);
        lemma_bytes_order_range(b[i], c[i], 0);
        lemma_bytes_order_range(a[i], c[i], 0);
        lemma_bytes_order_trans(a[i], b[i], c[i], 0);
        if bytes_order(a[i], b[i]) == 0 && bytes_order(b[i], c[i]) == 0 {
            lemma_comps_order_trans(a, b, c, i + 1);
        } else if bytes_order(a[i], c[i]) == 0 {
            lemma_bytes_order_trans(c[i], a[i], b[i], 0);
            lemma_bytes_order_trans(b[i], c[i], a[i], 0);
        }
    }
}

// ---------------------------------------------------------------------------
// Executable counterparts
// ---------------------------------------------------------------------------
/// Lexicographic comparison of two byte strings: -1, 0 or 1.
pub fn bytes_order_exec(a: &[u8], b: &[u8]) -> (r: i8)
    ensures
        r as int == bytes_order(a@, b@),
{
    let mut i: usize = 0;
    while i < a.len() && i < b.len()
        invariant
            0 <= i <= a@.len(),
            i <= b@.len(),
            bytes_order(a@, b@) == bytes_order_from(a@, b@, i as int),
        decreases a@.len() - i,
    {
        if a[i] < b[i] {
            return -1;
        }
        if a[i] > b[i] {
            return 1;
        }
        i = i + 1;
    }
    if i < a.len() {
        1
    } else if i < b.len() {
        -1
    } else {
        0
    }
}

/// Lexicographic comparison of two lists of strings: -1, 0 or 1.
pub fn strings_order_exec(a: &Vec<String>, b: &Vec<String>) -> (r: i8)
    ensures
        r as int == comps_order(strings_bytes(a@), strings_bytes(b@)),
{
    let ghost sa = strings_bytes(a@);
    let ghost sb = strings_bytes(b@);
    let mut i: usize = 0;
    while i < a.len() && i < b.len()
        invariant
            0 <= i <= a@.len(),
            i <= b@.len(),
            sa == strings_bytes(a@),
            sb == strings_bytes(b@),
            comps_order(sa, sb) == comps_order_from(sa, sb, i as int),
        decreases a@.len() - i,
    {
        let c = bytes_order_exec(a[i].as_str().as_bytes(), b[i].as_str().as_bytes());
        assert(sa[i as int] == utf8_bytes(a@[i as int]@));
        if c != 0 {
            return c;
        }
        i = i + 1;
    }
    if i < a.len() {
        1
    } else if i < b.len() {
        -1
    } else {
        0
    }
}

/// Result of splitting a relative path string into components.
pub struct SplitPath {
    /// The normal components, in order.
    pub components: Vec<String>,
    /// Whether the first segment is `.`.
    pub leading_dot: bool,
    /// Whether some segment is `..`.
    pub has_dotdot: bool,
    /// Whether some segment is `.`.
    pub has_dot: bool,
}

/// Splits `s` on `/` into its normal components and reports `.`/`..` segments.
pub fn split_path(s: &str) -> (r: SplitPath)
    ensures
        strings_bytes(r.components@) == path_components(s.spec_bytes()),
        r.leading_dot == (s.spec_bytes().subrange(0, seg_end(s.spec_bytes(), 0)) == dot_seg()),
        r.has_dotdot == has_dotdot_from(s.spec_bytes(), 0),
        r.has_dot == has_dot_from(s.spec_bytes(), 0),
{
    let b = s.as_bytes();
    let n = b.len();
    proof {
        lemma_str_valid(s);
    }
    let ghost bb = b@;
    let mut out: Vec<String> = Vec::new();
    let mut pos: usize = 0;
    let mut leading_dot = false;
    let mut dotdot = false;
    let mut dot = false;
    loop
        invariant
            n == bb.len(),
            bb == b@,
            bb == s.spec_bytes(),
            valid_utf8(bb),
            0 <= pos <= n,
            pos == 0 || (bb[pos - 1] == slash()),
            strings_bytes(out@) + components_from(bb, pos as int) == path_components(bb),
            dotdot || has_dotdot_from(bb, pos as int) == has_dotdot_from(bb, 0),
            !dotdot || has_dotdot_from(bb, 0),
            dot || has_dot_from(bb, pos as int) == has_dot_from(bb, 0),
            !dot || has_dot_from(bb, 0),
            pos > 0 ==> leading_dot == (bb.subrange(0, seg_end(bb, 0)) == dot_seg()),
        decreases n - pos,
    {
        let found = find_byte_exec(b, pos, n, 0x2F);
        proof {
            lemma_find_byte_props(bb, pos as int, n as int, slash());
        }
        let end = match found {
            Some(k) => k,
            None => n,
        };
        proof {
            if pos > 0 {
                lemma_after_ascii(bb, pos - 1);
            } else {
                lemma_boundary_at(bb, 0);
            }
            if end < n {
                lemma_boundary_at(bb, end as int);
            } else {
                lemma_boundary_at(bb, n as int);
            }
        }
        let len = end - pos;
        let is_dot = len == 1 && b[pos] == 0x2E;
        let is_dotdot = len == 2 && b[pos] == 0x2E && b[pos + 1] == 0x2E;
        let ghost head = bb.subrange(pos as int, end as int);
        assert(pos <= end <= n);
        assert(head.len() == end - pos);
        assert(is_dot == (head == dot_seg())) by {
            if head == dot_seg() {
                assert(head[0] == bb[pos as int]);
            }
            if is_dot {
                assert(head =~= dot_seg());
            }
        }
        assert(is_dotdot == (head == dotdot_seg())) by {
            if head == dotdot_seg() {
                assert(head[0] == bb[pos as int]);
                assert(head[1] == bb[pos + 1]);
            }
            if is_dotdot {
                assert(head =~= dotdot_seg());
            }
        }
        if pos == 0 {
            leading_dot = is_dot;
        }
        if is_dotdot {
            dotdot = true;
        }
        if is_dot {
            dot = true;
        }
        let ghost old_out = out@;
        if len > 0 && !is_dot {
            let piece = owned_slice(s, pos, end);
            out.push(piece);
            assert(strings_bytes(out@) =~= strings_bytes(old_out) + seq![head]);
        }
        match found {
            Some(k) => {
                proof {
                    if len > 0 && !is_dot {
                        assert(strings_bytes(out@) + components_from(bb, k + 1) =~= strings_bytes(
                            old_out,
                        ) + components_from(bb, pos as int));
                    } else {
                        assert(strings_bytes(out@) =~= strings_bytes(old_out));
                    }
                }
                pos = k + 1;
            },
            None => {
                proof {
                    if len > 0 && !is_dot {
                        assert(strings_bytes(out@) =~= strings_bytes(old_out) + components_from(
                            bb,
                            pos as int,
                        ));
                    } else {
                        assert(components_from(bb, pos as int) =~= Seq::<Seq<u8>>::empty());
                        assert(strings_bytes(out@) =~= strings_bytes(old_out));
                    }
                    assert(strings_bytes(out@) =~= strings_bytes(out@) + Seq::<Seq<u8>>::empty());
                }
                return SplitPath { components: out, leading_dot, has_dotdot: dotdot, has_dot: dot };
            },
        }
    }
}

/// Offset of the dot that separates the extension of `name`, if any.
pub fn ext_dot_exec(name: &[u8]) -> (r: Option<usize>)
    ensures
        match r {
            Some(d) => ext_dot(name@) == d as int,
            None => ext_dot(name@) == -1,
        },
{
    let dot: [u8; 1] = [0x2E];
    let ghost dots = dot@;
    assert(dot@ =~= dot_seg());
    let is_dotdot = name.len() == 2 && name[0] == 0x2E && name[1] == 0x2E;
    assert(is_dotdot == (name@ == dotdot_seg())) by {
        if name@ == dotdot_seg() {
            assert(name@[0] == 0x2E && name@[1] == 0x2E);
        }
        if is_dotdot {
            assert(name@ =~= dotdot_seg());
        }
    }
    if is_dotdot {
        return None;
    }
    match rfind_pat(name, name.len(), dot.as_slice()) {
        Some(d) => {
            if d == 0 {
                None
            } else {
                Some(d)
            }
        },
        None => None,
    }
}

/// Whether the file name `name` has an extension equal to `md` in any ASCII case.
pub fn has_md_extension_exec(name: &[u8]) -> (r: bool)
    ensures
        r == has_md_extension(name@),
{
    match ext_dot_exec(name) {
        None => false,
        Some(d) => {
            let n = name.len();
            proof {
                lemma_rfind_props(name@, n as int, dot_seg());
            }
            let ghost e = name@.subrange(d + 1, n as int);
            if n - d - 1 != 2 {
                return false;
            }
            let c0 = lower_ascii(name[d + 1]);
            let c1 = lower_ascii(name[d + 2]);
            let r = c0 == 0x6D && c1 == 0x64;
            assert(e[0] == name@[d + 1]);
            assert(e[1] == name@[d + 2]);
            assert(r == eq_ignore_ascii_case(e, md_ext())) by {
                if r {
                    assert forall|i: int| 0 <= i < e.len() implies ascii_lower(#[trigger] e[i])
                        == md_ext()[i] by {
                        if i == 0 {
                        } else {
                            assert(i == 1);
                        }
                    }
                }
                if eq_ignore_ascii_case(e, md_ext()) {
                    assert(ascii_lower(e[0]) == md_ext()[0]);
                    assert(ascii_lower(e[1]) == md_ext()[1]);
                }
            }
            r
        },
    }
}

/// ASCII lower-casing of one byte.
pub fn lower_ascii(c: u8) -> (r: u8)
    ensures
        r == ascii_lower(c),
{
    if 0x41 <= c && c <= 0x5A {
        c + 32
    } else {
        c
    }
}

/// What `Path` equality compares of the path `b`: whether it is absolute,
/// whether it starts with a `.` segment, and its normal components. Two
/// paths are the same folder exactly when these agree (so `/x/a/` and `/x/a`
/// are one folder).
pub open spec fn path_key(b: Seq<u8>) -> (bool, bool, Seq<Seq<u8>>) {
    (
        b.len() > 0 && b[0] == 0x2Fu8,
        b.subrange(0, seg_end(b, 0)) == dot_seg(),
        path_components(b),
    )
}

/// Whether `a` and `b` name the same path, as `Path` equality decides.
pub fn same_path(a: &str, b: &str) -> (r: bool)
    ensures
        r == (path_key(a.spec_bytes()) == path_key(b.spec_bytes())),
{
    let sa = split_path(a);
    let sb = split_path(b);
    let abs_a = a.as_bytes().len() > 0 && a.as_bytes()[0] == 0x2F;
    let abs_b = b.as_bytes().len() > 0 && b.as_bytes()[0] == 0x2F;
    if abs_a != abs_b || sa.leading_dot != sb.leading_dot || sa.components.len() != sb.components.len() {
        return false;
    }
    let r = crate::tree::starts_with(&sa.components, &sb.components);
    proof {
        let ka = strings_bytes(sa.components@);
        let kb = strings_bytes(sb.components@);
        assert(ka.len() == sa.components@.len());
        assert(kb.len() == sb.components@.len());
        assert(ka.take(kb.len() as int) =~= ka);
        assert(r == (ka == kb));
    }
    r
}

} // verus!
