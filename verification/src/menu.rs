//! Menu actions and the labels of the Recent Folders entries.
use vstd::prelude::*;
use vstd::string::*;

verus! {

/// Longest label, in characters, of a Recent Folders entry.
pub const RECENT_LABEL_MAX: usize = 64;

/// Action triggered by a menu click.
#[derive(Debug, Clone, PartialEq, Eq)]
pub enum MenuAction {
    /// Open a folder picker.
    OpenFolder,
    /// Create a fresh untitled note in the current folder.
    NewNote,
    /// Save the currently selected note.
    Save,
    /// Close the active note tab.
    Close,
    /// Toggle Graph mode.
    ToggleGraph,
    /// Toggle the per-folder editor word-wrap setting.
    ToggleWordWrap,
    /// Open the Preferences window.
    ShowPreferences,
    /// Open one of the recent folders, given by its path.
    OpenRecent(String),
}

/// The horizontal ellipsis character.
pub open spec fn ellipsis() -> char {
    '\u{2026}'
}

/// The last `n` characters of `s` (all of `s` when it is shorter).
pub open spec fn tail_chars(s: Seq<char>, n: int) -> Seq<char> {
    if s.len() <= n {
        s
    } else {
        s.subrange(s.len() - n, s.len() as int)
    }
}

/// `label` itself when it fits in the limit, otherwise an ellipsis followed
/// by its last `RECENT_LABEL_MAX - 1` characters.
pub open spec fn shortened(label: Seq<char>) -> Seq<char> {
    if label.len() <= RECENT_LABEL_MAX {
        label
    } else {
        seq![ellipsis()] + tail_chars(label, RECENT_LABEL_MAX - 1)
    }
}

/// How many characters of the parent path a truncated label keeps.
pub open spec fn parent_allowance(name_len: int) -> int {
    let a = if name_len + 5 <= RECENT_LABEL_MAX {
        RECENT_LABEL_MAX - (name_len + 5)
    } else {
        0
    };
    if a < 8 {
        8
    } else {
        a
    }
}

/// The label of a recent folder from its file name and parent path:
/// `name — parent`, with the parent cut from the left behind an ellipsis
/// when the whole would exceed the limit; just the (shortened) name when
/// there is no parent.
pub open spec fn recent_label(name: Seq<char>, parent: Seq<char>) -> Seq<char> {
    let sep = seq![' ', '\u{2014}', ' '];
    if parent.len() == 0 {
        shortened(name)
    } else if name.len() + 3 + parent.len() <= RECENT_LABEL_MAX {
        name + sep + parent
    } else {
        name + sep + seq![ellipsis()] + tail_chars(parent, parent_allowance(name.len() as int))
    }
}

/// The last `n` characters of `s`.
fn tail(s: &str, n: usize) -> (r: &str)
    ensures
        r@ == tail_chars(s@, n as int),
{
    let len = s.unicode_len();
    if len <= n {
        s.substring_char(0, len)
    } else {
        s.substring_char(len - n, len)
    }
}

/// Tail-truncates `label` to `RECENT_LABEL_MAX` characters behind a leading
/// ellipsis.
pub fn shorten(label: &str) -> (r: String)
    ensures
        r@ == shortened(label@),
{
    if label.unicode_len() <= RECENT_LABEL_MAX {
        return String::from_str(label);
    }
    let dots = "\u{2026}";
    proof {
        reveal_strlit("\u{2026}");
    }
    let mut out = String::from_str(dots);
    out.append(tail(label, RECENT_LABEL_MAX - 1));
    out
}

/// Builds the Recent Folders label from a path's file name and parent path
/// (empty when the path has no parent).
pub fn display_label(file_name: &str, parent: &str) -> (r: String)
    ensures
        r@ == recent_label(file_name@, parent@),
{
    if parent.unicode_len() == 0 {
        return shorten(file_name);
    }
    let name_len = file_name.unicode_len();
    let parent_len = parent.unicode_len();
    let sep = " \u{2014} ";
    proof {
        reveal_strlit(" \u{2014} ");
        assert(seq![' ', '\u{2014}', ' '] =~= sep@);
    }
    let mut out = String::from_str(file_name);
    out.append(sep);
    if name_len <= RECENT_LABEL_MAX && parent_len <= RECENT_LABEL_MAX - name_len
        && 3 <= RECENT_LABEL_MAX - name_len - parent_len {
        out.append(parent);
        return out;
    }
    let allowance: usize = if name_len <= RECENT_LABEL_MAX - 5 {
        RECENT_LABEL_MAX - (name_len + 5)
    } else {
        0
    };
    let allowance: usize = if allowance < 8 {
        8
    } else {
        allowance
    };
    let dots = "\u{2026}";
    proof {
        reveal_strlit("\u{2026}");
    }
    out.append(dots);
    out.append(tail(parent, allowance));
    out
}

} // verus!
