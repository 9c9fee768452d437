//! Note identifiers: safe folder-relative Markdown paths.
use vstd::prelude::*;
use vstd::string::*;
use crate::text::{utf8_bytes, lemma_str_valid, lemma_boundary_at, str_slice, lemma_rfind_props};
use crate::path::{
    path_components, has_dotdot_from, has_dot_from, seg_end, dot_seg, has_md_extension, name_stem, ext_dot,
    strings_bytes, split_path, has_md_extension_exec, ext_dot_exec, strings_order_exec,
    comps_order, lemma_comps_order,
};

verus! {

/// Error returned when a path is not a safe folder-relative note path.
#[derive(Debug, Clone, Copy, PartialEq, Eq, Structural)]
pub enum FolderPathError {
    /// The path is empty.
    Empty,
    /// The path is absolute or contains a platform prefix.
    NotRelative,
    /// The path contains `.` or `..` components.
    UnsafeComponent,
    /// The path does not identify a file name.
    MissingFileName,
    /// The path does not point to a Markdown note.
    NotMarkdown,
}

impl FolderPathError {
    /// Human-readable description of the error.
    pub fn message(&self) -> (r: &'static str)
        ensures
            r@ == match self {
                FolderPathError::Empty => "path is empty"@,
                FolderPathError::NotRelative => "path must be relative to the folder"@,
                FolderPathError::UnsafeComponent => "path contains an unsafe component"@,
                FolderPathError::MissingFileName => "path must include a file name"@,
                FolderPathError::NotMarkdown => "path must point to a Markdown note"@,
            },
    {
        match self {
            FolderPathError::Empty => "path is empty",
            FolderPathError::NotRelative => "path must be relative to the folder",
            FolderPathError::UnsafeComponent => "path contains an unsafe component",
            FolderPathError::MissingFileName => "path must include a file name",
            FolderPathError::NotMarkdown => "path must point to a Markdown note",
        }
    }
}

/// Why the path `b` is not a note path, checked in this order: emptiness,
/// absoluteness, a `.` or `..` segment anywhere, a file name, a `.md` extension.
pub open spec fn note_path_error(b: Seq<u8>) -> Option<FolderPathError> {
    if b.len() == 0 {
        Some(FolderPathError::Empty)
    } else if b[0] == 0x2F {
        Some(FolderPathError::NotRelative)
    } else if has_dot_from(b, 0) || has_dotdot_from(b, 0) {
        Some(FolderPathError::UnsafeComponent)
    } else if path_components(b).len() == 0 {
        Some(FolderPathError::MissingFileName)
    } else if !has_md_extension(path_components(b).last()) {
        Some(FolderPathError::NotMarkdown)
    } else {
        None
    }
}

/// Stable identifier for a Markdown note inside a folder.
///
/// Two identifiers are equal, and are ordered, by their path components, as
/// `Path` values are.
#[derive(Debug)]
pub struct NoteId {
    relative_path: String,
    components: Vec<String>,
}

impl NoteId {
    /// The path as given, as bytes.
    pub closed spec fn path(&self) -> Seq<u8> {
        utf8_bytes(self.relative_path@)
    }

    /// The path as given, as characters.
    pub closed spec fn path_chars(&self) -> Seq<char> {
        self.relative_path@
    }

    /// The normal components of the path: identity and order go by these.
    pub closed spec fn key(&self) -> Seq<Seq<u8>> {
        strings_bytes(self.components@)
    }

    /// Whether this identifier holds its components consistently with its path.
    pub closed spec fn wf(&self) -> bool {
        self.key() == path_components(self.path())
    }

    /// The file stem: the last component without its extension.
    pub open spec fn stem(&self) -> Seq<u8> {
        if self.key().len() == 0 {
            Seq::empty()
        } else {
            name_stem(self.key().last())
        }
    }

    /// Builds a note identifier from a folder-relative Markdown path.
    ///
    /// The path must be relative, must not contain `.` or `..`, and must use an
    /// `.md` extension.
    pub fn from_folder_relative_path(path: &str) -> (r: Result<NoteId, FolderPathError>)
        ensures
            match r {
                Ok(id) => {
                    &&& note_path_error(path.spec_bytes()) is None
                    &&& id.path() == path.spec_bytes()
                    &&& id.key() == path_components(path.spec_bytes())
                    &&& id.wf()
                },
                Err(e) => note_path_error(path.spec_bytes()) == Some(e),
            },
    {
        let b = path.as_bytes();
        if b.len() == 0 {
            return Err(FolderPathError::Empty);
        }
        if b[0] == 0x2F {
            return Err(FolderPathError::NotRelative);
        }
        let split = split_path(path);
        if split.has_dot || split.has_dotdot {
            return Err(FolderPathError::UnsafeComponent);
        }
        let n = split.components.len();
        if n == 0 {
            return Err(FolderPathError::MissingFileName);
        }
        if !has_md_extension_exec(split.components[n - 1].as_str().as_bytes()) {
            return Err(FolderPathError::NotMarkdown);
        }
        let relative_path = path.to_owned();
        Ok(NoteId { relative_path, components: split.components })
    }

    /// Returns the folder-relative path for this note.
    pub fn relative_path(&self) -> (r: &str)
        ensures
            r.spec_bytes() == self.path(),
    {
        self.relative_path.as_str()
    }

    /// Returns an owned copy of the folder-relative path.
    pub fn relative_path_owned(&self) -> (r: String)
        ensures
            r@ == self.path_chars(),
            utf8_bytes(r@) == self.path(),
    {
        self.relative_path.clone()
    }

    /// Returns the note file stem.
    pub fn file_stem(&self) -> (r: &str)
        ensures
            r.spec_bytes() == self.stem(),
    {
        let n = self.components.len();
        if n == 0 {
            let e = "";
            proof {
                reveal_strlit("");
                lemma_str_valid(e);
                assert(e.spec_bytes() =~= Seq::<u8>::empty());
            }
            return e;
        }
        let name = self.components[n - 1].as_str();
        assert(name.spec_bytes() == self.key().last());
        let nb = name.as_bytes();
        match ext_dot_exec(nb) {
            None => name,
            Some(d) => {
                proof {
                    lemma_str_valid(name);
                    lemma_rfind_props(nb@, nb@.len() as int, dot_seg());
                    assert(nb@[d as int] == 0x2E) by {
                        assert(nb@.subrange(d as int, d + 1) == dot_seg());
                        assert(nb@.subrange(d as int, d + 1)[0] == nb@[d as int]);
                    }
                    lemma_boundary_at(nb@, 0);
                    lemma_boundary_at(nb@, d as int);
                }
                str_slice(name, 0, d)
            },
        }
    }

    /// The normal path components.
    pub fn components(&self) -> (r: &Vec<String>)
        ensures
            strings_bytes(r@) == self.key(),
    {
        &self.components
    }

    /// Compares two identifiers by their components: -1, 0 or 1.
    pub fn order(&self, other: &NoteId) -> (r: i8)
        ensures
            r as int == comps_order(self.key(), other.key()),
    {
        strings_order_exec(&self.components, &other.components)
    }

    /// Equality of identifiers (by components).
    pub fn same(&self, other: &NoteId) -> (r: bool)
        ensures
            r == (self.key() == other.key()),
    {
        proof {
            lemma_comps_order(self.key(), other.key());
        }
        self.order(other) == 0
    }
}

impl Clone for NoteId {
    fn clone(&self) -> (r: Self)
        ensures
            r.path() == self.path(),
            r.path_chars() == self.path_chars(),
            r.key() == self.key(),
    {
        let relative_path = self.relative_path.clone();
        let components = self.components.clone();
        proof {
            assert forall|i: int| 0 <= i < components@.len() implies components@[i]
                == self.components@[i] by {
                assert(cloned::<String>(self.components[i], components[i]));
            }
            assert(components@ =~= self.components@);
        }
        NoteId { relative_path, components }
    }
}

impl PartialEq for NoteId {
    fn eq(&self, other: &Self) -> (r: bool) {
        self.same(other)
    }
}

impl vstd::std_specs::cmp::PartialEqSpecImpl for NoteId {
    open spec fn obeys_eq_spec() -> bool {
        true
    }

    open spec fn eq_spec(&self, other: &NoteId) -> bool {
        self.key() == other.key()
    }
}

impl Eq for NoteId {
}

} // verus!
