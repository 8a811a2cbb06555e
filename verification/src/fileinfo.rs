//! The directory snapshot: a tree of directories and the files in them.
//!
//! A snapshot is first taken with the paths that the walk saw, below the
//! walked root. [`DirInfo::strip_root`] then makes every path relative to
//! that root and gives every file its identifier, the hash of its relative
//! path. In that form the tree is sent; the receiver puts the files below a
//! root of its own with [`DirInfo::set_all_file_paths`].

use crate::hashing::{content_hash, content_hash_of, forward_slashes, path_hash, path_hash_of};
use crate::paths::{join_path, joined, relative, relative_to};
use vstd::prelude::*;

verus! {

/// One file of a snapshot.
#[derive(Debug, PartialEq, Eq)]
pub struct FileInfo {
    /// Where the file lies on this machine. It is not sent.
    pub path: String,
    /// The hash of the file's relative path, empty until the root is
    /// stripped.
    pub path_hash: String,
    pub name: String,
    pub size: u64,
    pub modified: u64,
    /// The hash of the file's content.
    pub hash: String,
}

/// The model of a [`FileInfo`]: its texts as sequences of characters.
pub ghost struct FileView {
    pub path: Seq<char>,
    pub path_hash: Seq<char>,
    pub name: Seq<char>,
    pub size: u64,
    pub modified: u64,
    pub hash: Seq<char>,
}

impl View for FileInfo {
    type V = FileView;

    open spec fn view(&self) -> FileView {
        FileView {
            path: self.path@,
            path_hash: self.path_hash@,
            name: self.name@,
            size: self.size,
            modified: self.modified,
            hash: self.hash@,
        }
    }
}

impl Clone for FileInfo {
    fn clone(&self) -> (r: Self)
        ensures
            r@ == self@,
    {
        FileInfo {
            path: self.path.clone(),
            path_hash: self.path_hash.clone(),
            name: self.name.clone(),
            size: self.size,
            modified: self.modified,
            hash: self.hash.clone(),
        }
    }
}

impl FileInfo {
    /// Describes the file at `path` from what was read of it: its name, its
    /// size and time of last write, and its content, which is hashed. The
    /// identifier stays empty until the root is stripped.
    pub fn new(path: &str, name: &str, size: u64, modified: u64, content: &[u8]) -> (r: Self)
        ensures
            r@ == (FileView {
                path: path@,
                path_hash: Seq::empty(),
                name: name@,
                size,
                modified,
                hash: content_hash_of(content@),
            }),
    {
        FileInfo {
            path: path.to_owned(),
            path_hash: String::new(),
            name: name.to_owned(),
            size,
            modified,
            hash: content_hash(content),
        }
    }
}

/// One directory of a snapshot, with the files in it and the directories
/// below it.
#[derive(Debug, PartialEq, Eq)]
pub struct DirInfo {
    pub path: String,
    pub files: Vec<FileInfo>,
    pub subdirs: Vec<DirInfo>,
}

/// The model of a [`DirInfo`]: a tree of file models.
pub ghost struct DirView {
    pub path: Seq<char>,
    pub files: Seq<FileView>,
    pub subdirs: Seq<DirView>,
}

/// The models of a list of files.
pub open spec fn file_views(files: Seq<FileInfo>) -> Seq<FileView> {
    Seq::new(files.len(), |i: int| files[i]@)
}

/// The model of a tree.
pub open spec fn dir_view(d: DirInfo) -> DirView
    decreases d,
{
    DirView {
        path: d.path@,
        files: file_views(d.files@),
        subdirs: Seq::new(
            d.subdirs@.len(),
            |i: int| if 0 <= i < d.subdirs@.len() { dir_view(d.subdirs@[i]) } else { arbitrary() },
        ),
    }
}

impl View for DirInfo {
    type V = DirView;

    open spec fn view(&self) -> DirView {
        dir_view(*self)
    }
}

impl Clone for DirInfo {
    fn clone(&self) -> (r: Self)
        ensures
            r@ == self@,
        decreases self,
    {
        let mut files: Vec<FileInfo> = Vec::new();
        let mut i: usize = 0;
        while i < self.files.len()
            invariant
                i <= self.files@.len(),
                files@.len() == i,
                forall|j: int| 0 <= j < i ==> files@[j]@ == self.files@[j]@,
            decreases self.files@.len() - i,
        {
            files.push(self.files[i].clone());
            i = i + 1;
        }
        let mut subdirs: Vec<DirInfo> = Vec::new();
        let mut k: usize = 0;
        while k < self.subdirs.len()
            invariant
                k <= self.subdirs@.len(),
                subdirs@.len() == k,
                forall|j: int| 0 <= j < k ==> subdirs@[j]@ == self.subdirs@[j]@,
            decreases self.subdirs@.len() - k,
        {
            subdirs.push(self.subdirs[k].clone());
            k = k + 1;
        }
        let r = DirInfo { path: self.path.clone(), files, subdirs };
        assert(r@.files =~= self@.files);
        assert(r@.subdirs =~= self@.subdirs);
        r
    }
}

// ------------------------------------------------------- placing files

/// `f` as it lies in the directory `dir`.
pub open spec fn placed_file(f: FileView, dir: Seq<char>) -> FileView {
    FileView { path: joined(dir, f.name), ..f }
}

/// The tree with every file's path set to where the file lies below
/// `root`: `root`, then the path of the file's directory, then its name.
/// Nothing else changes.
pub open spec fn placed(d: DirView, root: Seq<char>) -> DirView
    decreases d,
{
    DirView {
        path: d.path,
        files: Seq::new(d.files.len(), |i: int| placed_file(d.files[i], joined(root, d.path))),
        subdirs: Seq::new(
            d.subdirs.len(),
            |i: int| if 0 <= i < d.subdirs.len() { placed(d.subdirs[i], root) } else { arbitrary() },
        ),
    }
}

// ------------------------------------------------------- stripping the root

/// `f` with its path made relative to `root` and its identifier computed
/// from that relative path.
pub open spec fn stripped_file(f: FileView, root: Seq<char>) -> FileView {
    let rel = relative(f.path, root).unwrap();
    FileView { path: rel, path_hash: path_hash_of(rel), ..f }
}

/// The tree with every path made relative to `root` and every file given
/// its identifier.
pub open spec fn stripped(d: DirView, root: Seq<char>) -> DirView
    decreases d,
{
    DirView {
        path: relative(d.path, root).unwrap(),
        files: Seq::new(d.files.len(), |i: int| stripped_file(d.files[i], root)),
        subdirs: Seq::new(
            d.subdirs.len(),
            |i: int| if 0 <= i < d.subdirs.len() { stripped(d.subdirs[i], root) } else { arbitrary() },
        ),
    }
}

/// Files at the same relative path get the same identifier, whatever root
/// each was found below and whichever separator their paths are written
/// with.
pub proof fn law_identifier_of_relative_path(
    f: FileView,
    root_f: Seq<char>,
    g: FileView,
    root_g: Seq<char>,
)
    requires
        relative(f.path, root_f) is Some,
        relative(g.path, root_g) is Some,
        forward_slashes(relative(f.path, root_f).unwrap()) == forward_slashes(
            relative(g.path, root_g).unwrap(),
        ),
    ensures
        stripped_file(f, root_f).path_hash == stripped_file(g, root_g).path_hash,
{
}

/// Every path of the tree lies at or below `root`.
pub open spec fn rooted_at(d: DirView, root: Seq<char>) -> bool
    decreases d,
{
    &&& relative(d.path, root) is Some
    &&& forall|i: int| 0 <= i < d.files.len() ==> relative(#[trigger] d.files[i].path, root) is Some
    &&& forall|i: int| 0 <= i < d.subdirs.len() ==> rooted_at(#[trigger] d.subdirs[i], root)
}

impl DirInfo {
    /// Whether every path of the tree lies at or below the tree's own path,
    /// as it does in a snapshot that a walk from that path has taken.
    pub open spec fn rooted(&self) -> bool {
        rooted_at(self@, self.path@)
    }

    /// Describes the directory at `path` from what a walk found in it: its
    /// files, and the directories below it.
    pub fn new(path: &str, files: Vec<FileInfo>, subdirs: Vec<DirInfo>) -> (r: Self)
        ensures
            r@ == (DirView {
                path: path@,
                files: file_views(files@),
                subdirs: Seq::new(subdirs@.len(), |i: int| subdirs@[i]@),
            }),
    {
        let r = DirInfo { path: path.to_owned(), files, subdirs };
        assert(r@.subdirs =~= Seq::new(subdirs@.len(), |i: int| subdirs@[i]@));
        r
    }

    /// Puts the files of a received tree below `root`: every file's path
    /// becomes `root`, then the path of its directory, then its name. No
    /// identifier changes.
    pub fn set_all_file_paths(&mut self, root: &str)
        ensures
            final(self)@ == placed(old(self)@, root@),
        decreases *old(self),
    {
        let dir_path = join_path(root, self.path.as_str());
        let mut i: usize = 0;
        while i < self.files.len()
            invariant
                i <= self.files@.len(),
                self.files@.len() == old(self).files@.len(),
                self.path == old(self).path,
                self.subdirs == old(self).subdirs,
                dir_path@ == joined(root@, old(self).path@),
                forall|j: int|
                    0 <= j < i ==> self.files@[j]@ == placed_file(
                        old(self).files@[j]@,
                        dir_path@,
                    ),
                forall|j: int| i <= j < self.files@.len() ==> self.files@[j] == old(self).files@[j],
            decreases self.files@.len() - i,
        {
            let p = join_path(dir_path.as_str(), self.files[i].name.as_str());
            self.files[i].path = p;
            i = i + 1;
        }
        let mut k: usize = 0;
        while k < self.subdirs.len()
            invariant
                k <= self.subdirs@.len(),
                self.subdirs@.len() == old(self).subdirs@.len(),
                self.path == old(self).path,
                self.files@.len() == old(self).files@.len(),
                forall|j: int|
                    0 <= j < self.files@.len() ==> self.files@[j]@ == placed_file(
                        old(self).files@[j]@,
                        joined(root@, old(self).path@),
                    ),
                forall|j: int|
                    0 <= j < k ==> self.subdirs@[j]@ == placed(old(self).subdirs@[j]@, root@),
                forall|j: int|
                    k <= j < self.subdirs@.len() ==> self.subdirs@[j] == old(self).subdirs@[j],
            decreases self.subdirs@.len() - k,
        {
            self.subdirs[k].set_all_file_paths(root);
            k = k + 1;
        }
        assert(self@.files =~= placed(old(self)@, root@).files);
        assert(self@.subdirs =~= placed(old(self)@, root@).subdirs);
    }

    /// Whether every path of the tree lies at or below `root`.
    pub fn is_rooted_at(&self, root: &str) -> (r: bool)
        ensures
            r == rooted_at(self@, root@),
        decreases self,
    {
        if relative_to(self.path.as_str(), root).is_none() {
            return false;
        }
        let mut i: usize = 0;
        while i < self.files.len()
            invariant
                i <= self.files@.len(),
                forall|j: int| 0 <= j < i ==> relative(#[trigger] self@.files[j].path, root@) is Some,
            decreases self.files@.len() - i,
        {
            if relative_to(self.files[i].path.as_str(), root).is_none() {
                assert(relative(self@.files[i as int].path, root@) is None);
                return false;
            }
            i = i + 1;
        }
        let mut k: usize = 0;
        while k < self.subdirs.len()
            invariant
                k <= self.subdirs@.len(),
                forall|j: int| 0 <= j < k ==> rooted_at(#[trigger] self@.subdirs[j], root@),
            decreases self.subdirs@.len() - k,
        {
            if !self.subdirs[k].is_rooted_at(root) {
                assert(!rooted_at(self@.subdirs[k as int], root@));
                return false;
            }
            k = k + 1;
        }
        true
    }

    /// Whether the tree is rooted at its own path.
    pub fn is_rooted(&self) -> (r: bool)
        ensures
            r == self.rooted(),
    {
        self.is_rooted_at(self.path.as_str())
    }

    /// Makes every path of the tree relative to the tree's own path, and
    /// gives every file the hash of its relative path as its identifier.
    pub fn strip_root(&mut self)
        requires
            old(self).rooted(),
        ensures
            final(self)@ == stripped(old(self)@, old(self).path@),
    {
        let root = self.path.clone();
        self.strip_below(root.as_str());
    }

    /// Makes every path of the tree relative to `root`, and gives every
    /// file the hash of its relative path as its identifier.
    pub fn strip_below(&mut self, root: &str)
        requires
            rooted_at(old(self)@, root@),
        ensures
            final(self)@ == stripped(old(self)@, root@),
        decreases *old(self),
    {
        match relative_to(self.path.as_str(), root) {
            Some(rel) => {
                self.path = rel;
            },
            None => {},
        }
        let mut k: usize = 0;
        while k < self.subdirs.len()
            invariant
                k <= self.subdirs@.len(),
                self.subdirs@.len() == old(self).subdirs@.len(),
                self.files == old(self).files,
                self.path@ == relative(old(self).path@, root@).unwrap(),
                rooted_at(old(self)@, root@),
                forall|j: int|
                    0 <= j < k ==> self.subdirs@[j]@ == stripped(old(self).subdirs@[j]@, root@),
                forall|j: int|
                    k <= j < self.subdirs@.len() ==> self.subdirs@[j] == old(self).subdirs@[j],
            decreases self.subdirs@.len() - k,
        {
            assert(rooted_at(old(self)@.subdirs[k as int], root@));
            self.subdirs[k].strip_below(root);
            k = k + 1;
        }
        let mut i: usize = 0;
        while i < self.files.len()
            invariant
                i <= self.files@.len(),
                self.files@.len() == old(self).files@.len(),
                self.subdirs@.len() == old(self).subdirs@.len(),
                self.path@ == relative(old(self).path@, root@).unwrap(),
                rooted_at(old(self)@, root@),
                forall|j: int|
                    0 <= j < self.subdirs@.len() ==> self.subdirs@[j]@ == stripped(
                        old(self).subdirs@[j]@,
                        root@,
                    ),
                forall|j: int|
                    0 <= j < i ==> self.files@[j]@ == stripped_file(old(self).files@[j]@, root@),
                forall|j: int| i <= j < self.files@.len() ==> self.files@[j] == old(self).files@[j],
            decreases self.files@.len() - i,
        {
            assert(relative(old(self)@.files[i as int].path, root@) is Some);
            match relative_to(self.files[i].path.as_str(), root) {
                Some(rel) => {
                    let id = path_hash(rel.as_str());
                    self.files[i].path = rel;
                    self.files[i].path_hash = id;
                },
                None => {},
            }
            i = i + 1;
        }
        assert(self@.files =~= stripped(old(self)@, root@).files);
        assert(self@.subdirs =~= stripped(old(self)@, root@).subdirs);
    }
}

} // verus!
