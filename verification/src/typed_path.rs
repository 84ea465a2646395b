use vstd::prelude::*;

use crate::typed_actions::Typed;

verus! {

/// What `symlink_metadata` reported for a path (links are not followed).
#[derive(Clone, Copy, Debug, PartialEq, Eq)]
pub struct PathMeta {
    /// The device that holds the entry.
    pub dev: u64,
    pub is_symlink: bool,
    pub is_dir: bool,
    pub is_file: bool,
}

/// What reading a symbolic link gave: its target, and whether the target exists.
#[derive(Debug, PartialEq, Eq)]
pub struct LinkInfo {
    pub target: String,
    pub target_exists: bool,
}

/// A path that existed when it was looked at, with what was seen there.
/// Keep in mind that the filesystem can change between that moment and later use.
#[derive(Debug, PartialEq, Eq)]
pub struct ExistentPath {
    /// The path as text.
    pub path: String,
    pub meta: PathMeta,
    /// For a symbolic link: where it points.
    pub link: Option<LinkInfo>,
    /// For a directory: its entries, each as (name within the directory, full path).
    pub entries: Option<Vec<(String, String)>>,
}

impl ExistentPath {
    /// Whatever the metadata says the entry is, the matching observation was made.
    pub open spec fn wf(&self) -> bool {
        &&& self.meta.is_symlink ==> self.link is Some
        &&& (self.meta.is_dir && !self.meta.is_symlink) ==> self.entries is Some
    }

    /// The path as text.
    pub fn as_path(&self) -> (r: &String)
        ensures
            r == &self.path,
    {
        &self.path
    }
}

/// A path known to be a symbolic link.
#[derive(Debug, PartialEq, Eq)]
pub struct SymlinkPath(pub ExistentPath);

/// A path known to be a directory.
#[derive(Debug, PartialEq, Eq)]
pub struct DirectoryPath(pub ExistentPath);

/// A path known to be a regular file.
#[derive(Debug, PartialEq, Eq)]
pub struct FilePath(pub ExistentPath);

/// A path that lies on another filesystem than its parent.
#[derive(Debug, PartialEq, Eq)]
pub struct FilesystemBoundaryPath(pub ExistentPath);

/// A path of some other kind (device, socket, fifo, ...).
#[derive(Debug, PartialEq, Eq)]
pub struct UnknownPath(pub ExistentPath);

impl SymlinkPath {
    /// The link was read when the path was looked at.
    pub open spec fn wf(&self) -> bool {
        self.0.link is Some
    }

    /// Where the link points.
    pub fn target(&self) -> (r: String)
        requires
            self.wf(),
        ensures
            r == self.0.link->Some_0.target,
    {
        match &self.0.link {
            Some(link) => link.target.clone(),
            None => vstd::pervasive::unreached(),
        }
    }
}

/// A copy of a directory listing.
pub fn clone_listing(v: &Vec<(String, String)>) -> (r: Vec<(String, String)>)
    ensures
        r@ == v@,
{
    let mut r: Vec<(String, String)> = Vec::new();
    let mut i: usize = 0;
    while i < v.len()
        invariant
            i <= v.len(),
            r@ =~= v@.take(i as int),
        decreases v.len() - i,
    {
        r.push((v[i].0.clone(), v[i].1.clone()));
        assert(v@.take(i + 1) =~= v@.take(i as int).push(v@[i as int]));
        i = i + 1;
    }
    assert(v@.take(v@.len() as int) =~= v@);
    r
}

impl DirectoryPath {
    /// The directory was listed when the path was looked at.
    pub open spec fn wf(&self) -> bool {
        self.0.entries is Some
    }

    /// The directory's entries, each as (name within the directory, full path).
    pub fn read_dir(&self) -> (r: Vec<(String, String)>)
        requires
            self.wf(),
        ensures
            r@ == self.0.entries->Some_0@,
    {
        match &self.0.entries {
            Some(entries) => clone_listing(entries),
            None => vstd::pervasive::unreached(),
        }
    }
}

/// The kinds of filesystem entries that are told apart.
#[derive(Clone, Copy, Debug, PartialEq, Eq)]
pub enum FileType {
    Directory,
    File,
    Symlink,
    Unknown,
    FilesystemBoundary,
}

/// A path together with what kind of entry it is.
pub type TypedPath = Typed<SymlinkPath, DirectoryPath, FilePath, FilesystemBoundaryPath, UnknownPath>;

/// The kind of an entry with metadata `meta`, inside a parent on device `parent_fs`:
/// another device makes a filesystem boundary; otherwise a link is a link, then a
/// directory, then a file, and anything else is unknown.
pub open spec fn spec_kind(meta: PathMeta, parent_fs: Option<u64>) -> FileType {
    if parent_fs != Some(meta.dev) {
        FileType::FilesystemBoundary
    } else if meta.is_symlink {
        FileType::Symlink
    } else if meta.is_dir {
        FileType::Directory
    } else if meta.is_file {
        FileType::File
    } else {
        FileType::Unknown
    }
}

/// The kind of a typed path.
pub open spec fn typed_path_kind(p: TypedPath) -> FileType {
    match p {
        Typed::Symlink(_) => FileType::Symlink,
        Typed::Directory(_) => FileType::Directory,
        Typed::File(_) => FileType::File,
        Typed::FilesystemBoundary(_) => FileType::FilesystemBoundary,
        Typed::Unknown(_) => FileType::Unknown,
    }
}

/// The existent path inside a typed path.
pub open spec fn typed_path_inner(p: TypedPath) -> ExistentPath {
    match p {
        Typed::Symlink(s) => s.0,
        Typed::Directory(d) => d.0,
        Typed::File(f) => f.0,
        Typed::FilesystemBoundary(b) => b.0,
        Typed::Unknown(u) => u.0,
    }
}

/// The observation that the kind of a typed path calls for was made.
pub open spec fn typed_path_wf(p: TypedPath) -> bool {
    match p {
        Typed::Symlink(s) => s.wf(),
        Typed::Directory(d) => d.wf(),
        _ => true,
    }
}

/// The typed path that `from_existent` makes of `p` inside a parent on device `parent_fs`.
pub open spec fn spec_typed(p: ExistentPath, parent_fs: Option<u64>) -> TypedPath {
    match spec_kind(p.meta, parent_fs) {
        FileType::Symlink => Typed::Symlink(SymlinkPath(p)),
        FileType::Directory => Typed::Directory(DirectoryPath(p)),
        FileType::File => Typed::File(FilePath(p)),
        FileType::FilesystemBoundary => Typed::FilesystemBoundary(FilesystemBoundaryPath(p)),
        FileType::Unknown => Typed::Unknown(UnknownPath(p)),
    }
}

impl TypedPath {
    /// Sorts an existing path into its kind. `parent_fs` is the device of the
    /// tree's root; an entry on another device is a filesystem boundary.
    pub fn from_existent(path: ExistentPath, parent_fs: Option<u64>) -> (r: Self)
        ensures
            r == spec_typed(path, parent_fs),
            typed_path_kind(r) == spec_kind(path.meta, parent_fs),
            typed_path_inner(r) == path,
            path.wf() ==> typed_path_wf(r),
    {
        let on_parent_fs = match parent_fs {
            Some(dev) => dev == path.meta.dev,
            None => false,
        };
        if !on_parent_fs {
            Typed::FilesystemBoundary(FilesystemBoundaryPath(path))
        } else if path.meta.is_symlink {
            Typed::Symlink(SymlinkPath(path))
        } else if path.meta.is_dir {
            Typed::Directory(DirectoryPath(path))
        } else if path.meta.is_file {
            Typed::File(FilePath(path))
        } else {
            Typed::Unknown(UnknownPath(path))
        }
    }
}

} // verus!
