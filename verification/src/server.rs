//! The server's state: the snapshot of the watched directory with its
//! index, and the cache of compressed file content.
//!
//! A snapshot is never changed once built. When the directory changes a new
//! one is built from a fresh scan and installed in place of the old, and
//! the cache is emptied in the same step, so that no content of an earlier
//! snapshot is served beside a later one.

use crate::compress::{compress_bytes, deflated};
use crate::fileinfo::{file_views, stripped, DirInfo, DirView, FileInfo};
use crate::index::{
    distinct_keys, file_map, has_key, index_entries, keys_of, lemma_index_entries,
    lemma_position, position,
};
use crate::keytable::KeyTable;
use crate::paths::{join_path, joined};
use crate::protocol::Error;
use crate::text::str_eq;
use std::sync::Arc;
use vstd::prelude::*;

verus! {

/// The identifier under which the server's own executable is served.
pub open spec fn self_key() -> Seq<char> {
    seq!['s', 'e', 'l', 'f']
}

/// Whether `key` asks for the server's own executable.
pub fn is_self_key(key: &str) -> (r: bool)
    ensures
        r == (key@ == self_key()),
{
    proof {
        reveal_strlit("self");
    }
    assert("self"@ =~= self_key());
    str_eq(key, "self")
}

// ------------------------------------------------------------ the snapshot

/// The model of an [`UpdateInfo`]. The index is a function of the tree
/// and has no part in it.
pub ghost struct UpdateView {
    pub target_dir: Seq<char>,
    pub dir_info: DirView,
    pub exe_hash: Seq<char>,
}

/// The content hash that the snapshot serves under `key`: that of the
/// running executable for the key `self`, else that of the file with this
/// identifier.
pub open spec fn served_hash(u: UpdateView, key: Seq<char>) -> Option<Seq<char>> {
    if key == self_key() {
        Some(u.exe_hash)
    } else if file_map(u.dir_info).contains_key(key) {
        Some(file_map(u.dir_info)[key].hash)
    } else {
        None
    }
}

/// Where the content served under `key` is read from: the running
/// executable for the key `self`, else the file's relative path below the
/// watched directory.
pub open spec fn served_path(u: UpdateView, exe_path: Seq<char>, key: Seq<char>) -> Option<
    Seq<char>,
> {
    if key == self_key() {
        Some(exe_path)
    } else if file_map(u.dir_info).contains_key(key) {
        Some(joined(u.target_dir, file_map(u.dir_info)[key].path))
    } else {
        None
    }
}

/// The snapshot that the server serves: the watched directory, its tree
/// with relative paths, the hash of the running executable, and the index
/// of the tree's files by identifier.
pub struct UpdateInfo {
    target_dir: String,
    dir_info: DirInfo,
    exe_hash: String,
    file_map: Vec<FileInfo>,
    table: KeyTable,
}

impl View for UpdateInfo {
    type V = UpdateView;

    closed spec fn view(&self) -> UpdateView {
        UpdateView {
            target_dir: self.target_dir@,
            dir_info: self.dir_info@,
            exe_hash: self.exe_hash@,
        }
    }
}

impl UpdateInfo {
    /// The index holds the flattened tree.
    pub closed spec fn wf(&self) -> bool {
        &&& file_views(self.file_map@) == index_entries(self.dir_info@)
        &&& self.table.wf()
        &&& self.table@ == keys_of(file_views(self.file_map@))
    }

    /// Builds the snapshot from a fresh scan of the watched directory and
    /// the hash of the running executable: the scan's paths are made
    /// relative to its root, every file gets its identifier, and the tree
    /// is flattened into the index.
    pub fn new(target_dir: &str, scanned: DirInfo, exe_hash: String) -> (r: Self)
        requires
            scanned.rooted(),
        ensures
            r.wf(),
            r@ == (UpdateView {
                target_dir: target_dir@,
                dir_info: stripped(scanned@, scanned.path@),
                exe_hash: exe_hash@,
            }),
    {
        let mut dir_info = scanned;
        dir_info.strip_root();
        let mut file_map: Vec<FileInfo> = Vec::new();
        let mut table = KeyTable::new();
        {
            let index = dir_info.flat_hashes();
            proof {
                index.lemma_wf();
            }
            let mut i: usize = 0;
            assert(keys_of(file_views(file_map@)) =~= Seq::<Seq<char>>::empty());
            while i < index.len()
                invariant
                    i <= index.listing().len(),
                    distinct_keys(index.listing()),
                    file_views(file_map@) == index.listing().take(i as int),
                    table.wf(),
                    table@ == keys_of(file_views(file_map@)),
                decreases index.listing().len() - i,
            {
                let ghost before = file_views(file_map@);
                let f = index.entry(i).clone();
                proof {
                    assert forall|j: int| 0 <= j < table@.len() implies table@[j]
                        != f.path_hash@ by {
                        assert(table@[j] == index.listing().take(i as int)[j].path_hash);
                        assert(index.listing()[j].path_hash != index.listing()[i as int].path_hash);
                    }
                }
                table.push(f.path_hash.clone());
                file_map.push(f);
                assert(file_views(file_map@) =~= before.push(index.listing()[i as int]));
                assert(before.push(index.listing()[i as int]) =~= index.listing().take(i + 1));
                assert(keys_of(file_views(file_map@)) =~= keys_of(before).push(
                    index.listing()[i as int].path_hash,
                ));
                i = i + 1;
            }
            assert(index.listing().take(i as int) =~= index.listing());
        }
        UpdateInfo { target_dir: target_dir.to_owned(), dir_info, exe_hash, file_map, table }
    }

    /// The watched directory.
    pub fn target_dir(&self) -> (r: &str)
        ensures
            r@ == self@.target_dir,
    {
        self.target_dir.as_str()
    }

    /// The tree of the watched directory, with relative paths.
    pub fn dir_info(&self) -> (r: &DirInfo)
        ensures
            r@ == self@.dir_info,
    {
        &self.dir_info
    }

    /// The content hash of the running executable.
    pub fn exe_hash(&self) -> (r: &str)
        ensures
            r@ == self@.exe_hash,
    {
        self.exe_hash.as_str()
    }

    /// The file of the snapshot with identifier `key`.
    pub fn file(&self, key: &str) -> (r: Option<&FileInfo>)
        requires
            self.wf(),
        ensures
            match r {
                Some(f) => file_map(self@.dir_info).contains_key(key@) && f@ == file_map(
                    self@.dir_info,
                )[key@],
                None => !file_map(self@.dir_info).contains_key(key@),
            },
    {
        let ghost entries = file_views(self.file_map@);
        proof {
            lemma_index_entries(self.dir_info@);
        }
        match self.table.find(key) {
            Some(i) => {
                proof {
                    assert(self.table@[i as int] == entries[i as int].path_hash);
                    lemma_position(entries, i as int);
                }
                Some(&self.file_map[i])
            },
            None => {
                proof {
                    if has_key(entries, key@) {
                        let p = position(entries, key@);
                        assert(self.table@[p] == entries[p].path_hash);
                    }
                }
                None
            },
        }
    }

    /// The content hash served under `key`; `NotFound` with the key where
    /// the snapshot serves nothing under it.
    pub fn get_file_hash(&self, key: &str) -> (r: Result<String, Error>)
        requires
            self.wf(),
        ensures
            match r {
                Ok(hash) => served_hash(self@, key@) == Some(hash@),
                Err(e) => served_hash(self@, key@) is None && (e matches Error::NotFound(k) && k@
                    == key@),
            },
    {
        if is_self_key(key) {
            Ok(self.exe_hash.clone())
        } else {
            match self.file(key) {
                Some(f) => Ok(f.hash.clone()),
                None => Err(Error::NotFound(key.to_owned())),
            }
        }
    }

    /// The path from which the content served under `key` is read, where
    /// `exe_path` is the path of the running executable; `NotFound` with
    /// the key where the snapshot serves nothing under it.
    pub fn get_file_path(&self, key: &str, exe_path: &str) -> (r: Result<String, Error>)
        requires
            self.wf(),
        ensures
            match r {
                Ok(path) => served_path(self@, exe_path@, key@) == Some(path@),
                Err(e) => served_path(self@, exe_path@, key@) is None && (e matches Error::NotFound(
                    k,
                ) && k@ == key@),
            },
    {
        if is_self_key(key) {
            Ok(exe_path.to_owned())
        } else {
            match self.file(key) {
                Some(f) => Ok(join_path(self.target_dir.as_str(), f.path.as_str())),
                None => Err(Error::NotFound(key.to_owned())),
            }
        }
    }
}

// ------------------------------------------------------------ changes

/// The time without a further change after which a changed directory is
/// scanned again, in seconds.
pub const DEBOUNCE_SECONDS: u64 = 10;

/// What the watcher says of a path that has changed.
#[derive(Clone, Copy, Debug, PartialEq, Eq)]
pub enum ChangeKind {
    /// The path changed, and has been quiet since.
    Any,
    /// The path is still changing.
    AnyContinuous,
}

/// Whether a batch of changes calls for a new snapshot now: it does unless
/// one of the paths is still changing, in which case a later batch will.
pub fn should_rebuild(changes: &Vec<ChangeKind>) -> (r: bool)
    ensures
        r == (forall|i: int| 0 <= i < changes@.len() ==> !(changes@[i] is AnyContinuous)),
{
    let mut i: usize = 0;
    while i < changes.len()
        invariant
            i <= changes@.len(),
            forall|j: int| 0 <= j < i ==> !(changes@[j] is AnyContinuous),
        decreases changes@.len() - i,
    {
        match changes[i] {
            ChangeKind::AnyContinuous => {
                return false;
            },
            ChangeKind::Any => {},
        }
        i = i + 1;
    }
    true
}

// ------------------------------------------------------------ the cache

/// The compressed content that was served before, by key.
pub struct ContentCache {
    table: KeyTable,
    blobs: Vec<Arc<Vec<u8>>>,
}

/// The place of `key` among `keys`, where it is one of them.
pub open spec fn key_at(keys: Seq<Seq<char>>, key: Seq<char>) -> int {
    choose|i: int| 0 <= i < keys.len() && #[trigger] keys[i] == key
}

/// Whether `key` is one of `keys`.
pub open spec fn holds_key(keys: Seq<Seq<char>>, key: Seq<char>) -> bool {
    exists|i: int| 0 <= i < keys.len() && #[trigger] keys[i] == key
}

impl View for ContentCache {
    type V = Map<Seq<char>, Seq<u8>>;

    closed spec fn view(&self) -> Map<Seq<char>, Seq<u8>> {
        Map::new(
            |k: Seq<char>| holds_key(self.table@, k),
            |k: Seq<char>| self.blobs@[key_at(self.table@, k)]@,
        )
    }
}

impl ContentCache {
    /// Every key has its content, and no key occurs twice.
    pub closed spec fn wf(&self) -> bool {
        &&& self.table.wf()
        &&& self.table@.len() == self.blobs@.len()
    }

    /// An empty cache.
    pub fn new() -> (r: Self)
        ensures
            r.wf(),
            r@ == Map::<Seq<char>, Seq<u8>>::empty(),
    {
        let r = ContentCache { table: KeyTable::new(), blobs: Vec::new() };
        assert(r@ =~= Map::<Seq<char>, Seq<u8>>::empty());
        r
    }

    fn find(&self, key: &str) -> (r: Option<usize>)
        requires
            self.wf(),
        ensures
            match r {
                Some(i) => i < self.table@.len() && self.table@[i as int] == key@ && holds_key(
                    self.table@,
                    key@,
                ) && key_at(self.table@, key@) == i,
                None => !holds_key(self.table@, key@),
            },
    {
        proof {
            self.table.lemma_distinct();
        }
        match self.table.find(key) {
            Some(i) => {
                proof {
                    let p = key_at(self.table@, key@);
                    assert(0 <= p < self.table@.len() && self.table@[p] == key@);
                    if p < i {
                        assert(self.table@[p] != self.table@[i as int]);
                    } else if i < p {
                        assert(self.table@[i as int] != self.table@[p]);
                    }
                }
                Some(i)
            },
            None => None,
        }
    }

    /// The content cached under `key`, shared with the cache.
    pub fn get(&self, key: &str) -> (r: Option<Arc<Vec<u8>>>)
        requires
            self.wf(),
        ensures
            match r {
                Some(bytes) => self@.contains_key(key@) && bytes@ == self@[key@],
                None => !self@.contains_key(key@),
            },
    {
        match self.find(key) {
            Some(i) => Some(self.blobs[i].clone()),
            None => None,
        }
    }

    /// Caches `bytes` under `key`, in place of what was cached there.
    pub fn insert(&mut self, key: &str, bytes: Arc<Vec<u8>>)
        requires
            old(self).wf(),
        ensures
            final(self).wf(),
            final(self)@ == old(self)@.insert(key@, bytes@),
    {
        proof {
            self.table.lemma_distinct();
        }
        match self.find(key) {
            Some(i) => {
                self.blobs.set(i, bytes);
                proof {
                    assert forall|k: Seq<char>| holds_key(self.table@, k) implies #[trigger] self@[k]
                        == old(self)@.insert(key@, bytes@)[k] by {
                        let p = key_at(self.table@, k);
                        assert(0 <= p < self.table@.len() && self.table@[p] == k);
                    }
                    assert(self@ =~= old(self)@.insert(key@, bytes@));
                }
            },
            None => {
                let ghost n = self.table@.len() as int;
                let ghost keys = self.table@;
                self.table.push(key.to_owned());
                self.blobs.push(bytes);
                proof {
                    self.table.lemma_distinct();
                    let after = self.table@;
                    assert(after[n] == key@);
                    assert forall|k: Seq<char>|
                        holds_key(after, k) == (holds_key(keys, k) || k == key@) by {
                        if holds_key(after, k) {
                            let p = key_at(after, k);
                            if p < n {
                                assert(keys[p] == k);
                            }
                        }
                        if holds_key(keys, k) {
                            let p = key_at(keys, k);
                            assert(after[p] == k);
                        }
                    }
                    assert forall|k: Seq<char>| holds_key(after, k) implies #[trigger] self@[k]
                        == old(self)@.insert(key@, bytes@)[k] by {
                        let p = key_at(after, k);
                        assert(0 <= p < after.len() && after[p] == k);
                        if k != key@ {
                            let q = key_at(keys, k);
                            assert(0 <= q < n && keys[q] == k);
                            assert(after[q] == k);
                            if p < q {
                                assert(after[p] != after[q]);
                            } else if q < p {
                                assert(after[q] != after[p]);
                            }
                        } else {
                            if p < n {
                                assert(after[p] != after[n]);
                            }
                        }
                    }
                    assert(self@ =~= old(self)@.insert(key@, bytes@));
                }
            },
        }
    }

    /// Empties the cache.
    pub fn clear(&mut self)
        ensures
            final(self).wf(),
            final(self)@ == Map::<Seq<char>, Seq<u8>>::empty(),
    {
        self.table.clear();
        self.blobs.clear();
        assert(self@ =~= Map::<Seq<char>, Seq<u8>>::empty());
    }
}

// ------------------------------------------------------------ the state

/// The model of a [`ServerState`].
pub ghost struct ServerView {
    pub info: UpdateView,
    pub cache: Map<Seq<char>, Seq<u8>>,
}

/// The state after a new snapshot is installed: the new snapshot and an
/// empty cache.
pub open spec fn installed(info: UpdateView) -> ServerView {
    ServerView { info, cache: Map::empty() }
}

/// The state after `bytes` are cached under `key`.
pub open spec fn cached(s: ServerView, key: Seq<char>, bytes: Seq<u8>) -> ServerView {
    ServerView { info: s.info, cache: s.cache.insert(key, bytes) }
}

/// What the server holds: the current snapshot and the content cache.
pub struct ServerState {
    info: UpdateInfo,
    cache: ContentCache,
}

impl View for ServerState {
    type V = ServerView;

    closed spec fn view(&self) -> ServerView {
        ServerView { info: self.info@, cache: self.cache@ }
    }
}

impl ServerState {
    /// The snapshot and the cache are well formed.
    pub closed spec fn wf(&self) -> bool {
        self.info.wf() && self.cache.wf()
    }

    /// The state of a server that starts with `info`: nothing is cached.
    pub fn new(info: UpdateInfo) -> (r: Self)
        requires
            info.wf(),
        ensures
            r.wf(),
            r@ == installed(info@),
    {
        ServerState { info, cache: ContentCache::new() }
    }

    /// Puts `info` in the place of the current snapshot and empties the
    /// cache, in one step.
    pub fn install(&mut self, info: UpdateInfo)
        requires
            info.wf(),
        ensures
            final(self).wf(),
            final(self)@ == installed(info@),
    {
        self.info = info;
        self.cache.clear();
    }

    /// The current snapshot.
    pub fn info(&self) -> (r: &UpdateInfo)
        requires
            self.wf(),
        ensures
            r.wf(),
            r@ == self@.info,
    {
        &self.info
    }

    /// The compressed content cached under `key`.
    pub fn cached_content(&self, key: &str) -> (r: Option<Arc<Vec<u8>>>)
        requires
            self.wf(),
        ensures
            match r {
                Some(bytes) => self@.cache.contains_key(key@) && bytes@ == self@.cache[key@],
                None => !self@.cache.contains_key(key@),
            },
    {
        self.cache.get(key)
    }

    /// Compresses `content`, which was read for `key`, caches the result
    /// under `key` and hands it out. Where the compressor fails nothing
    /// changes.
    pub fn store(&mut self, key: &str, content: &[u8]) -> (r: Option<Arc<Vec<u8>>>)
        requires
            old(self).wf(),
        ensures
            final(self).wf(),
            match r {
                Some(bytes) => deflated(content@) == Some(bytes@) && final(self)@ == cached(
                    old(self)@,
                    key@,
                    bytes@,
                ),
                None => deflated(content@) is None && final(self)@ == old(self)@,
            },
    {
        match compress_bytes(content) {
            Some(packed) => {
                let shared = Arc::new(packed);
                self.cache.insert(key, shared.clone());
                Some(shared)
            },
            None => None,
        }
    }
}

} // verus!
