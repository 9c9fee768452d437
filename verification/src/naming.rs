//! Names the workspace makes up: untitled notes, their first line, and
//! fresh names for dropped images that collide with existing assets.
use vstd::prelude::*;
use vstd::string::*;
use crate::folder::NoteId;
use crate::path::{path_components, name_stem, name_extension, ext_dot, ext_dot_exec, split_path, dotdot_seg};
use crate::text::{utf8_bytes, push_str, lemma_ascii_str, lemma_str_valid, lemma_boundary_at, str_slice, lemma_rfind_props};

verus! {

/// The folder-relative directory that dropped images are copied into.
pub const ASSETS_DIR: &'static str = "assets";

/// Most candidate names tried for a dropped image before giving up.
pub const UNIQUE_ASSET_MAX_ATTEMPTS: usize = 1024;

broadcast use vstd::seq::group_seq_axioms;

/// The decimal digits of `n`.
pub open spec fn decimal(n: nat) -> Seq<u8>
    decreases n,
{
    if n < 10 {
        seq![(48 + n) as u8]
    } else {
        decimal(n / 10) + seq![(48 + n % 10) as u8]
    }
}

/// The one-digit string of `d`.
fn digit(d: usize) -> (r: &'static str)
    requires
        d < 10,
    ensures
        r.spec_bytes() == seq![(48 + d) as u8],
{
    let s = match d {
        0 => "0",
        1 => "1",
        2 => "2",
        3 => "3",
        4 => "4",
        5 => "5",
        6 => "6",
        7 => "7",
        8 => "8",
        _ => "9",
    };
    proof {
        reveal_strlit("0");
        reveal_strlit("1");
        reveal_strlit("2");
        reveal_strlit("3");
        reveal_strlit("4");
        reveal_strlit("5");
        reveal_strlit("6");
        reveal_strlit("7");
        reveal_strlit("8");
        reveal_strlit("9");
        lemma_ascii_str(s);
        assert(s.spec_bytes() =~= seq![(48 + d) as u8]);
    }
    s
}

/// Appends the decimal digits of `n`.
fn push_decimal(out: &mut String, n: usize)
    ensures
        utf8_bytes(final(out)@) == utf8_bytes(old(out)@) + decimal(n as nat),
    decreases n,
{
    if n >= 10 {
        push_decimal(out, n / 10);
    }
    push_str(out, digit(n % 10));
    proof {
        assert(utf8_bytes(final(out)@) =~= utf8_bytes(old(out)@) + decimal(n as nat));
    }
}

/// A literal piece, revealed.
fn piece(which: u8) -> (r: &'static str)
    ensures
        which == 0 ==> r.spec_bytes() == untitled_name(),
        which == 1 ==> r.spec_bytes() == untitled_prefix(),
        which == 2 ==> r.spec_bytes() == md_suffix(),
        which == 3 ==> r.spec_bytes() == seq![0x23u8, 0x20],
        which == 4 ==> r.spec_bytes() == seq![0x0Au8],
        which == 5 ==> r.spec_bytes() == seq![0x2Du8],
        which == 6 ==> r.spec_bytes() == seq![0x2Eu8],
        which == 7 ==> r.spec_bytes() == default_image_stem(),
        which == 8 ==> r.spec_bytes() == default_image_extension(),
{
    let s = if which == 0 {
        "Untitled.md"
    } else if which == 1 {
        "Untitled "
    } else if which == 2 {
        ".md"
    } else if which == 3 {
        "# "
    } else if which == 4 {
        "\n"
    } else if which == 5 {
        "-"
    } else if which == 6 {
        "."
    } else if which == 7 {
        "image"
    } else {
        "png"
    };
    proof {
        reveal_strlit("Untitled.md");
        reveal_strlit("Untitled ");
        reveal_strlit(".md");
        reveal_strlit("# ");
        reveal_strlit("\n");
        reveal_strlit("-");
        reveal_strlit(".");
        reveal_strlit("image");
        reveal_strlit("png");
        lemma_ascii_str(s);
        if which == 0 {
            assert(s.spec_bytes() =~= untitled_name());
        } else if which == 1 {
            assert(s.spec_bytes() =~= untitled_prefix());
        } else if which == 2 {
            assert(s.spec_bytes() =~= md_suffix());
        } else if which == 3 {
            assert(s.spec_bytes() =~= seq![0x23u8, 0x20]);
        } else if which == 4 {
            assert(s.spec_bytes() =~= seq![0x0Au8]);
        } else if which == 5 {
            assert(s.spec_bytes() =~= seq![0x2Du8]);
        } else if which == 6 {
            assert(s.spec_bytes() =~= seq![0x2Eu8]);
        } else if which == 7 {
            assert(s.spec_bytes() =~= default_image_stem());
        } else {
            assert(s.spec_bytes() =~= default_image_extension());
        }
    }
    s
}

/// The bytes of `Untitled.md`.
pub open spec fn untitled_name() -> Seq<u8> {
    seq![0x55u8, 0x6E, 0x74, 0x69, 0x74, 0x6C, 0x65, 0x64, 0x2E, 0x6D, 0x64]
}

/// The bytes of `Untitled ` (with the space).
pub open spec fn untitled_prefix() -> Seq<u8> {
    seq![0x55u8, 0x6E, 0x74, 0x69, 0x74, 0x6C, 0x65, 0x64, 0x20]
}

/// The bytes of `.md`.
pub open spec fn md_suffix() -> Seq<u8> {
    seq![0x2Eu8, 0x6D, 0x64]
}

/// The bytes of `image`, the stem of an image name without one.
pub open spec fn default_image_stem() -> Seq<u8> {
    seq![0x69u8, 0x6D, 0x61, 0x67, 0x65]
}

/// The bytes of `png`, the extension of an image name without one.
pub open spec fn default_image_extension() -> Seq<u8> {
    seq![0x70u8, 0x6E, 0x67]
}

/// The `index`-th candidate file name of a new untitled note:
/// `Untitled.md`, then `Untitled 1.md`, `Untitled 2.md`, ...
pub open spec fn untitled_candidate(index: nat) -> Seq<u8> {
    if index == 0 {
        untitled_name()
    } else {
        untitled_prefix() + decimal(index) + md_suffix()
    }
}

/// Returns the `index`-th candidate file name of a new untitled note.
pub fn untitled_note_name(index: usize) -> (r: String)
    ensures
        utf8_bytes(r@) == untitled_candidate(index as nat),
{
    let mut out = String::new();
    assert(utf8_bytes(out@) =~= Seq::<u8>::empty());
    if index == 0 {
        push_str(&mut out, piece(0));
    } else {
        push_str(&mut out, piece(1));
        push_decimal(&mut out, index);
        push_str(&mut out, piece(2));
    }
    proof {
        assert(utf8_bytes(out@) =~= untitled_candidate(index as nat));
    }
    out
}

/// The first line of a new note: `# ` and its stem.
pub fn new_note_source(note_id: &NoteId) -> (r: String)
    ensures
        utf8_bytes(r@) == seq![0x23u8, 0x20] + note_id.stem() + seq![0x0Au8],
{
    let mut out = String::new();
    assert(utf8_bytes(out@) =~= Seq::<u8>::empty());
    push_str(&mut out, piece(3));
    push_str(&mut out, note_id.file_stem());
    push_str(&mut out, piece(4));
    assert(utf8_bytes(out@) =~= seq![0x23u8, 0x20] + note_id.stem() + seq![0x0Au8]);
    out
}

/// The file name of the path `b`, as `Path::file_name` gives it: its last
/// component, unless there is none or it is `..`.
pub open spec fn file_name_of(b: Seq<u8>) -> Option<Seq<u8>> {
    let cs = path_components(b);
    if cs.len() == 0 || cs.last() == dotdot_seg() {
        None
    } else {
        Some(cs.last())
    }
}

/// The `index`-th candidate name for an asset called `file_name`: the name
/// itself, then `<stem>-<index>.<extension>`, with `image` and `png` standing
/// in for a missing stem or extension.
pub open spec fn asset_candidate(file_name: Seq<u8>, index: nat) -> Seq<u8> {
    if index == 0 {
        file_name
    } else {
        let stem = match file_name_of(file_name) {
            Some(n) => name_stem(n),
            None => default_image_stem(),
        };
        let ext = match file_name_of(file_name) {
            Some(n) => match name_extension(n) {
                Some(e) => e,
                None => default_image_extension(),
            },
            None => default_image_extension(),
        };
        stem + seq![0x2Du8] + decimal(index) + seq![0x2Eu8] + ext
    }
}

/// Returns the `index`-th candidate name for an asset called `file_name`.
pub fn asset_candidate_name(file_name: &str, index: usize) -> (r: String)
    ensures
        utf8_bytes(r@) == asset_candidate(file_name.spec_bytes(), index as nat),
{
    let mut out = String::new();
    assert(utf8_bytes(out@) =~= Seq::<u8>::empty());
    if index == 0 {
        push_str(&mut out, file_name);
        return out;
    }
    let comps = split_path(file_name).components;
    let n = comps.len();
    let mut name_opt: Option<&str> = None;
    if n > 0 {
        let last = comps[n - 1].as_str();
        let lb = last.as_bytes();
        assert(crate::path::strings_bytes(comps@)[n - 1] == lb@);
        let is_dotdot = lb.len() == 2 && lb[0] == 0x2E && lb[1] == 0x2E;
        proof {
            if lb@.len() == 2 && lb@[0] == 0x2E && lb@[1] == 0x2E {
                assert(lb@ =~= dotdot_seg());
            }
        }
        if !is_dotdot {
            name_opt = Some(last);
        }
    }
    match name_opt {
        None => {
            push_str(&mut out, piece(7));
            push_str(&mut out, piece(5));
            push_decimal(&mut out, index);
            push_str(&mut out, piece(6));
            push_str(&mut out, piece(8));
        },
        Some(name) => {
            let nb = name.as_bytes();
            proof {
                lemma_str_valid(name);
            }
            match ext_dot_exec(nb) {
                None => {
                    push_str(&mut out, name);
                    push_str(&mut out, piece(5));
                    push_decimal(&mut out, index);
                    push_str(&mut out, piece(6));
                    push_str(&mut out, piece(8));
                },
                Some(d) => {
                    proof {
                        lemma_rfind_props(nb@, nb@.len() as int, crate::path::dot_seg());
                        assert(nb@[d as int] == 0x2E) by {
                            assert(nb@.subrange(d as int, d + 1) == crate::path::dot_seg());
                            assert(nb@.subrange(d as int, d + 1)[0] == nb@[d as int]);
                        }
                        lemma_boundary_at(nb@, 0);
                        lemma_boundary_at(nb@, d as int);
                        crate::text::lemma_after_ascii(nb@, d as int);
                    }
                    push_str(&mut out, str_slice(name, 0, d));
                    push_str(&mut out, piece(5));
                    push_decimal(&mut out, index);
                    push_str(&mut out, piece(6));
                    push_str(&mut out, str_slice(name, d + 1, nb.len()));
                },
            }
        },
    }
    proof {
        assert(utf8_bytes(out@) =~= asset_candidate(file_name.spec_bytes(), index as nat));
    }
    out
}

} // verus!
