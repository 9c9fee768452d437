//! Options of the folder walker.
use vstd::prelude::*;
use vstd::string::*;
use crate::path::{has_md_extension, has_md_extension_exec};

verus! {

/// Default maximum depth of the folder walk.
pub const DEFAULT_MAX_DEPTH: usize = 64;

/// Tunable options for the folder walker.
#[derive(Debug)]
pub struct WalkOptions {
    /// Whether to follow symbolic links.
    pub follow_symlinks: bool,
    /// Whether dotfiles and dotfolders are included.
    pub include_dotfiles: bool,
    /// Whether to honor `.gitignore` files in addition to `.sideromelaneignore`.
    pub honor_gitignore: bool,
    /// Additional ignore file paths the walker should consult.
    pub extra_ignore_files: Vec<String>,
    /// Maximum directory depth.
    pub max_depth: Option<usize>,
    /// Globs, relative to the folder root, whose matches the walk leaves out.
    pub excluded_globs: Vec<String>,
}

impl WalkOptions {
    /// Whether `other` holds the same options.
    pub open spec fn same(&self, other: &WalkOptions) -> bool {
        &&& other.follow_symlinks == self.follow_symlinks
        &&& other.include_dotfiles == self.include_dotfiles
        &&& other.honor_gitignore == self.honor_gitignore
        &&& other.extra_ignore_files@ == self.extra_ignore_files@
        &&& other.max_depth == self.max_depth
        &&& other.excluded_globs@ == self.excluded_globs@
    }
}

impl Default for WalkOptions {
    fn default() -> (r: WalkOptions)
        ensures
            !r.follow_symlinks,
            !r.include_dotfiles,
            !r.honor_gitignore,
            r.extra_ignore_files@.len() == 0,
            r.max_depth == Some(DEFAULT_MAX_DEPTH),
            r.excluded_globs@.len() == 0,
    {
        WalkOptions {
            follow_symlinks: false,
            include_dotfiles: false,
            honor_gitignore: false,
            extra_ignore_files: Vec::new(),
            max_depth: Some(DEFAULT_MAX_DEPTH),
            excluded_globs: Vec::new(),
        }
    }
}

impl Clone for WalkOptions {
    fn clone(&self) -> (r: WalkOptions)
        ensures
            self.same(&r),
    {
        WalkOptions {
            follow_symlinks: self.follow_symlinks,
            include_dotfiles: self.include_dotfiles,
            honor_gitignore: self.honor_gitignore,
            extra_ignore_files: clone_strings(&self.extra_ignore_files),
            max_depth: self.max_depth,
            excluded_globs: clone_strings(&self.excluded_globs),
        }
    }
}

/// A copy of a list of strings.
fn clone_strings(v: &Vec<String>) -> (r: Vec<String>)
    ensures
        r@ == v@,
{
    let mut out: Vec<String> = Vec::new();
    let mut i: usize = 0;
    while i < v.len()
        invariant
            0 <= i <= v@.len(),
            out@ == v@.take(i as int),
        decreases v@.len() - i,
    {
        out.push(v[i].clone());
        assert(v@.take(i + 1) =~= v@.take(i as int).push(v@[i as int]));
        i = i + 1;
    }
    assert(v@.take(i as int) =~= v@);
    out
}

/// Whether a walked path is a Markdown file: its file name (the last
/// component, unless that is `..`) has the extension `md` in any ASCII case.
pub fn has_markdown_extension(path: &str) -> (r: bool)
    ensures
        r == (crate::naming::file_name_of(path.spec_bytes()) matches Some(n) && has_md_extension(n)),
{
    let comps = crate::path::split_path(path).components;
    let n = comps.len();
    if n == 0 {
        return false;
    }
    let last = comps[n - 1].as_str().as_bytes();
    assert(crate::path::strings_bytes(comps@)[n - 1] == last@);
    if last.len() == 2 && last[0] == 0x2E && last[1] == 0x2E {
        assert(last@ =~= crate::path::dotdot_seg());
        return false;
    }
    has_md_extension_exec(last)
}

/// The name of the app-owned metadata directory at the folder root.
pub open spec fn metadata_dir_name() -> Seq<u8> {
    seq![0x2Eu8, 0x73, 0x69, 0x64, 0x65, 0x72, 0x6F, 0x6D, 0x65, 0x6C, 0x61, 0x6E, 0x65]
}

/// Whether a walked entry is the app's metadata directory (which the walk
/// always skips): an entry below the root named `.sideromelane`.
pub fn is_metadata_entry(depth: usize, file_name: &str) -> (r: bool)
    ensures
        r == (depth > 0 && file_name.spec_bytes() == metadata_dir_name()),
{
    let name: [u8; 13] = [0x2E, 0x73, 0x69, 0x64, 0x65, 0x72, 0x6F, 0x6D, 0x65, 0x6C, 0x61, 0x6E, 0x65];
    assert(name@ =~= metadata_dir_name());
    depth > 0 && crate::text::bytes_eq(file_name.as_bytes(), name.as_slice())
}

} // verus!
