use vstd::prelude::*;

verus! {

/// The last component of a path, as the standard library's path handling
/// reads it (`None` for a root, an empty path, or one ending in `..`).
pub uninterp spec fn final_component(path: Seq<char>) -> Option<Seq<char>>;

/// Relies on `std::path::Path::file_name` for the last component of the
/// path; `OsStr::to_str` then always succeeds, since a component of a `str`
/// is valid UTF-8.
#[verifier::external_body]
fn path_file_name(path: &str) -> (r: Option<&str>)
    ensures
        r is None <==> final_component(path@) is None,
        r matches Some(name) ==> final_component(path@) == Some(name@),
{
    match std::path::Path::new(path).file_name() {
        Some(name) => name.to_str(),
        None => None,
    }
}

/// Kind of a filesystem object, as read from its metadata.
#[derive(Debug, Clone, Copy, PartialEq, Eq, Structural)]
pub struct FileKind {
    pub is_dir: bool,
    pub is_file: bool,
    pub is_symlink: bool,
}

/// One filesystem object found during a walk.
///
/// The flags are those seen when the entry was read: `is_symlink` tells
/// whether the object itself is a link; `is_dir` and `is_file` give its
/// own kind, or the kind of its target when the walk follows links.
#[derive(Clone)]
pub struct DirEntry {
    path: String,
    depth: usize,
    is_dir: bool,
    is_file: bool,
    is_symlink: bool,
}

/// What a `DirEntry` holds, as mathematical values.
pub ghost struct EntryView {
    pub path: Seq<char>,
    pub depth: usize,
    pub is_dir: bool,
    pub is_file: bool,
    pub is_symlink: bool,
}

impl View for DirEntry {
    type V = EntryView;

    closed spec fn view(&self) -> EntryView {
        EntryView {
            path: self.path@,
            depth: self.depth,
            is_dir: self.is_dir,
            is_file: self.is_file,
            is_symlink: self.is_symlink,
        }
    }
}

impl DirEntry {
    pub(crate) fn new(path: String, depth: usize, kind: FileKind) -> (r: DirEntry)
        ensures
            r@ == (EntryView {
                path: path@,
                depth,
                is_dir: kind.is_dir,
                is_file: kind.is_file,
                is_symlink: kind.is_symlink,
            }),
    {
        DirEntry {
            path,
            depth,
            is_dir: kind.is_dir,
            is_file: kind.is_file,
            is_symlink: kind.is_symlink,
        }
    }

    /// The entry's path, as joined from the walk's root. Paths may reveal
    /// the layout of a system: keep them out of user-facing error text.
    pub fn path(&self) -> (r: &str)
        ensures
            r@ == self@.path,
    {
        self.path.as_str()
    }

    /// Depth of the entry: 0 for the root's own children.
    pub fn depth(&self) -> (r: usize)
        ensures
            r == self@.depth,
    {
        self.depth
    }

    pub fn is_dir(&self) -> (r: bool)
        ensures
            r == self@.is_dir,
    {
        self.is_dir
    }

    pub fn is_file(&self) -> (r: bool)
        ensures
            r == self@.is_file,
    {
        self.is_file
    }

    /// Whether the object itself is a link, whatever its target is.
    pub fn is_symlink(&self) -> (r: bool)
        ensures
            r == self@.is_symlink,
    {
        self.is_symlink
    }

    /// The last component of the entry's path, borrowed from it.
    pub fn file_name(&self) -> (r: Option<&str>)
        ensures
            r is None <==> final_component(self@.path) is None,
            r matches Some(name) ==> final_component(self@.path) == Some(name@),
    {
        path_file_name(self.path.as_str())
    }
}

} // verus!
