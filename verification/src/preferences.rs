//! The default-folder rule of the Preferences window: the filesystem root,
//! restricted system directories and `~/Library` cannot hold the notes.
use vstd::prelude::*;
use vstd::string::*;
use crate::path::{path_components, seg_end, dot_seg, split_path, strings_bytes, lemma_strings_bytes_push, path_key, same_path};
use crate::text::{utf8_bytes, bytes_eq, push_str, to_owned_string, lemma_ascii_str};

verus! {

broadcast use vstd::seq::group_seq_axioms;

/// Errors returned by [`validate_default_folder`].
#[derive(Debug, Clone, PartialEq, Eq)]
pub enum DefaultFolderError {
    /// The path is the filesystem root (`/`).
    FsRoot,
    /// The path is a restricted system directory or a child of one.
    SystemPath(String),
    /// The path is `~/Library` or a child of it.
    UserLibrary,
}

impl DefaultFolderError {
    /// Human-readable description of the error, naming the path of a
    /// restricted system path.
    pub fn message(&self) -> (r: String)
        ensures
            r@ == match self {
                DefaultFolderError::FsRoot => "the filesystem root is not a valid notes folder"@,
                DefaultFolderError::SystemPath(p) => "'"@ + p@ + "' is a restricted system path; pick another folder"@,
                DefaultFolderError::UserLibrary => "~/Library is restricted; pick another folder"@,
            },
    {
        match self {
            DefaultFolderError::FsRoot => String::from_str("the filesystem root is not a valid notes folder"),
            DefaultFolderError::SystemPath(p) => {
                let mut out = String::from_str("'");
                out.append(p.as_str());
                out.append("' is a restricted system path; pick another folder");
                out
            },
            DefaultFolderError::UserLibrary => String::from_str("~/Library is restricted; pick another folder"),
        }
    }
}

/// How a path begins: at the root, at the current directory (`.`), or with a name.
pub enum PathHead {
    Root,
    Cur,
    Plain,
}

/// How the path `b` begins.
pub open spec fn path_head(b: Seq<u8>) -> PathHead {
    if b.len() > 0 && b[0] == 0x2F {
        PathHead::Root
    } else if b.subrange(0, seg_end(b, 0)) == dot_seg() {
        PathHead::Cur
    } else {
        PathHead::Plain
    }
}

/// Whether the path `b` names the filesystem root.
pub open spec fn is_fs_root(b: Seq<u8>) -> bool {
    path_head(b) is Root && path_components(b).len() == 0
}

/// The top-level system directories that cannot hold the notes.
pub open spec fn restricted_names() -> Seq<Seq<u8>> {
    seq![
        seq![0x53u8, 0x79, 0x73, 0x74, 0x65, 0x6D],
        seq![0x70u8, 0x72, 0x69, 0x76, 0x61, 0x74, 0x65],
        seq![0x4Cu8, 0x69, 0x62, 0x72, 0x61, 0x72, 0x79],
        seq![0x75u8, 0x73, 0x72],
        seq![0x62u8, 0x69, 0x6E],
        seq![0x73u8, 0x62, 0x69, 0x6E],
        seq![0x65u8, 0x74, 0x63],
        seq![0x76u8, 0x61, 0x72],
        seq![0x64u8, 0x65, 0x76],
    ]
}

/// Whether the path `b` is `/System`, `/private`, `/Library`, `/usr`, `/bin`,
/// `/sbin`, `/etc`, `/var` or `/dev`, or lies below one of them.
pub open spec fn under_system(b: Seq<u8>) -> bool {
    path_head(b) is Root && path_components(b).len() >= 1 && restricted_names().contains(
        path_components(b)[0],
    )
}

/// The bytes of `Library`.
pub open spec fn library_name() -> Seq<u8> {
    seq![0x4Cu8, 0x69, 0x62, 0x72, 0x61, 0x72, 0x79]
}

/// Whether the path `b` is the `Library` directory of the home directory
/// `h`, or lies below it (component-wise, as `Path::starts_with`).
pub open spec fn under_library(b: Seq<u8>, h: Seq<u8>) -> bool {
    let lib = path_components(h).push(library_name());
    &&& path_head(b) == path_head(h)
    &&& lib.len() <= path_components(b).len()
    &&& path_components(b).take(lib.len() as int) == lib
}

/// The kind of rejection of a default folder, if any.
pub enum FolderVerdict {
    Accepted,
    FsRoot,
    SystemPath,
    UserLibrary,
}

/// The verdict on the default folder `b`, with home directory `home`.
pub open spec fn folder_verdict(b: Seq<u8>, home: Option<Seq<u8>>) -> FolderVerdict {
    if is_fs_root(b) {
        FolderVerdict::FsRoot
    } else if under_system(b) {
        FolderVerdict::SystemPath
    } else if home matches Some(h) && under_library(b, h) {
        FolderVerdict::UserLibrary
    } else {
        FolderVerdict::Accepted
    }
}

/// Whether `r` reports the verdict `v` on the path `path`.
pub open spec fn reports(r: Result<(), DefaultFolderError>, v: FolderVerdict, path: Seq<char>) -> bool {
    match v {
        FolderVerdict::Accepted => r is Ok,
        FolderVerdict::FsRoot => r == Err::<(), DefaultFolderError>(DefaultFolderError::FsRoot),
        FolderVerdict::SystemPath => r matches Err(DefaultFolderError::SystemPath(s)) && s@ == path,
        FolderVerdict::UserLibrary => r == Err::<(), DefaultFolderError>(DefaultFolderError::UserLibrary),
    }
}

/// The home directory, as text.
///
/// Calls `dirs::home_dir`, which reads the environment; a home directory
/// that is not valid UTF-8 is given as none, since no UTF-8 path lies under
/// it. Nothing is claimed of the result.
#[verifier::external_body]
fn home_dir() -> Option<String> {
    dirs::home_dir().and_then(|home| home.to_str().map(str::to_owned))
}

/// How the path `s` begins.
fn head_of(s: &str) -> (r: u8)
    ensures
        (r == 0) == (path_head(s.spec_bytes()) is Root),
        (r == 1) == (path_head(s.spec_bytes()) is Cur),
        (r == 2) == (path_head(s.spec_bytes()) is Plain),
{
    let b = s.as_bytes();
    if b.len() > 0 && b[0] == 0x2F {
        return 0;
    }
    let sp = split_path(s);
    if sp.leading_dot {
        1
    } else {
        2
    }
}

/// Whether `c` is one of the restricted top-level system directories.
fn is_restricted_name(c: &[u8]) -> (r: bool)
    ensures
        r == restricted_names().contains(c@),
{
    let names: [&[u8]; 9] = [
        &[0x53u8, 0x79, 0x73, 0x74, 0x65, 0x6D],
        &[0x70u8, 0x72, 0x69, 0x76, 0x61, 0x74, 0x65],
        &[0x4Cu8, 0x69, 0x62, 0x72, 0x61, 0x72, 0x79],
        &[0x75u8, 0x73, 0x72],
        &[0x62u8, 0x69, 0x6E],
        &[0x73u8, 0x62, 0x69, 0x6E],
        &[0x65u8, 0x74, 0x63],
        &[0x76u8, 0x61, 0x72],
        &[0x64u8, 0x65, 0x76],
    ];
    assert(names@.len() == 9);
    assert forall|i: int| 0 <= i < 9 implies names@[i]@ == restricted_names()[i] by {
        assert(names@[0]@ =~= restricted_names()[0]);
        assert(names@[1]@ =~= restricted_names()[1]);
        assert(names@[2]@ =~= restricted_names()[2]);
        assert(names@[3]@ =~= restricted_names()[3]);
        assert(names@[4]@ =~= restricted_names()[4]);
        assert(names@[5]@ =~= restricted_names()[5]);
        assert(names@[6]@ =~= restricted_names()[6]);
        assert(names@[7]@ =~= restricted_names()[7]);
        assert(names@[8]@ =~= restricted_names()[8]);
    }
    let mut i: usize = 0;
    while i < 9
        invariant
            0 <= i <= 9,
            names@.len() == 9,
            forall|j: int| 0 <= j < 9 ==> names@[j]@ == restricted_names()[j],
            forall|j: int| 0 <= j < i ==> restricted_names()[j] != c@,
        decreases 9 - i,
    {
        if bytes_eq(names[i], c) {
            assert(restricted_names()[i as int] == c@);
            return true;
        }
        i = i + 1;
    }
    false
}

/// Validates `path` as the default notes folder given the home directory
/// `home` (none when it cannot be determined): the filesystem root, the
/// restricted system directories and their subtrees, and `~/Library` and its
/// subtree are rejected, the first rule that applies deciding.
pub fn validate_default_folder_in(path: &str, home: Option<&str>) -> (r: Result<(), DefaultFolderError>)
    ensures
        reports(
            r,
            folder_verdict(
                path.spec_bytes(),
                match home {
                    Some(h) => Some(h.spec_bytes()),
                    None => None,
                },
            ),
            path@,
        ),
{
    let head = head_of(path);
    let comps = split_path(path).components;
    if head == 0 && comps.len() == 0 {
        return Err(DefaultFolderError::FsRoot);
    }
    proof {
        if comps@.len() >= 1 {
            assert(strings_bytes(comps@)[0] == utf8_bytes(comps@[0]@));
        }
    }
    if head == 0 && comps.len() >= 1 && is_restricted_name(comps[0].as_str().as_bytes()) {
        return Err(DefaultFolderError::SystemPath(to_owned_string(path)));
    }
    match home {
        None => Ok(()),
        Some(h) => {
            let mut lib = split_path(h).components;
            let library = "Library";
            proof {
                reveal_strlit("Library");
                lemma_ascii_str(library);
                assert(library.spec_bytes() =~= library_name());
            }
            let ghost before = lib@;
            lib.push(to_owned_string(library));
            proof {
                lemma_strings_bytes_push(before, lib@.last());
            }
            if head_of(h) == head && crate::tree::starts_with(&comps, &lib) {
                Err(DefaultFolderError::UserLibrary)
            } else {
                Ok(())
            }
        },
    }
}

/// Validates `path` as the default notes folder: the filesystem root and the
/// restricted system directories and their subtrees are always rejected;
/// `~/Library` and its subtree are rejected when the home directory is known.
pub fn validate_default_folder(path: &str) -> (r: Result<(), DefaultFolderError>)
    ensures
        is_fs_root(path.spec_bytes()) ==> r == Err::<(), DefaultFolderError>(DefaultFolderError::FsRoot),
        !is_fs_root(path.spec_bytes()) && under_system(path.spec_bytes()) ==> (r matches Err(
            DefaultFolderError::SystemPath(s),
        ) && s@ == path@),
        !is_fs_root(path.spec_bytes()) && !under_system(path.spec_bytes()) ==> r is Ok || r
            == Err::<(), DefaultFolderError>(DefaultFolderError::UserLibrary),
{
    let home = home_dir();
    match home {
        Some(h) => validate_default_folder_in(path, Some(h.as_str())),
        None => validate_default_folder_in(path, None),
    }
}

/// State of the Preferences window.
#[derive(Debug)]
pub struct PreferencesWindow {
    folder_error: Option<String>,
}

impl Default for PreferencesWindow {
    fn default() -> (r: PreferencesWindow)
        ensures
            r.error_v() is None,
    {
        PreferencesWindow { folder_error: None }
    }
}

impl PreferencesWindow {
    /// The rejection message shown beneath the folder picker, if any.
    pub closed spec fn error_v(&self) -> Option<Seq<char>> {
        match self.folder_error {
            Some(s) => Some(s@),
            None => None,
        }
    }

    /// The rejection message shown beneath the folder picker, if any.
    pub fn folder_error(&self) -> (r: Option<&str>)
        ensures
            match r {
                Some(s) => self.error_v() == Some(s@),
                None => self.error_v() is None,
            },
    {
        match &self.folder_error {
            Some(s) => Some(s.as_str()),
            None => None,
        }
    }

    /// Takes the folder the user picked as the new default folder, given the
    /// home directory `home`: returns it when it is not the same path as `current` and
    /// is accepted (see [`validate_default_folder_in`]), clearing the
    /// rejection message; a rejected folder leaves the default unchanged and
    /// sets the message `Folder '<picked>' is restricted; pick another.`
    pub fn choose_default_folder_in(&mut self, current: &str, picked: &str, home: Option<&str>) -> (r: Option<String>)
        ensures
            (path_key(picked.spec_bytes()) == path_key(current.spec_bytes())) ==> r is None && final(self).error_v() == old(self).error_v(),
            !(path_key(picked.spec_bytes()) == path_key(current.spec_bytes())) ==> if folder_verdict(
                picked.spec_bytes(),
                match home {
                    Some(h) => Some(h.spec_bytes()),
                    None => None,
                },
            ) is Accepted {
                r matches Some(f) && f@ == picked@ && final(self).error_v() is None
            } else {
                r is None && final(self).error_v() == Some("Folder '"@ + picked@ + "' is restricted; pick another."@)
            },
    {
        if same_path(picked, current) {
            return None;
        }
        match validate_default_folder_in(picked, home) {
            Ok(()) => {
                self.folder_error = None;
                Some(to_owned_string(picked))
            },
            Err(_) => {
                let mut msg = String::from_str("Folder '");
                msg.append(picked);
                msg.append("' is restricted; pick another.");
                self.folder_error = Some(msg);
                None
            },
        }
    }

    /// Takes the folder the user picked as the new default folder: returns
    /// it when it differs from `current` and is accepted, clearing the
    /// rejection message; a rejected folder leaves the default unchanged and
    /// sets the message `Folder '<picked>' is restricted; pick another.`
    pub fn choose_default_folder(&mut self, current: &str, picked: &str) -> (r: Option<String>)
        ensures
            (path_key(picked.spec_bytes()) == path_key(current.spec_bytes())) ==> r is None && final(self).error_v() == old(self).error_v(),
            !(path_key(picked.spec_bytes()) == path_key(current.spec_bytes())) && (is_fs_root(picked.spec_bytes()) || under_system(picked.spec_bytes()))
                ==> r is None,
            !(path_key(picked.spec_bytes()) == path_key(current.spec_bytes())) && r is None ==> final(self).error_v() == Some(
                "Folder '"@ + picked@ + "' is restricted; pick another."@,
            ),
            r matches Some(f) ==> !(path_key(picked.spec_bytes()) == path_key(current.spec_bytes())) && f@ == picked@ && final(self).error_v() is None,
    {
        let home = home_dir();
        match home {
            Some(h) => self.choose_default_folder_in(current, picked, Some(h.as_str())),
            None => self.choose_default_folder_in(current, picked, None),
        }
    }
}

} // verus!
