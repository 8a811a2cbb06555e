//! The flattened index of a snapshot and the diff of two snapshots.
//!
//! Flattening walks the tree once, a directory's own files first and then
//! the directories below it in order, and files every file under its
//! identifier. Where two files share an identifier the later one takes the
//! place of the earlier. The diff of a local snapshot against a base lists
//! the files of the base that the local side lacks or holds with another
//! content hash, and nothing else.

use crate::fileinfo::{DirInfo, DirView, FileInfo, FileView};
use crate::keytable::KeyTable;
use crate::text::str_eq;
use vstd::prelude::*;

verus! {

// ------------------------------------------------------------ the model

/// Every file of the tree: a directory's own files, then those of each
/// directory below it, in order.
pub open spec fn all_files(d: DirView) -> Seq<FileView>
    decreases d,
{
    d.files + all_files_of(d.subdirs)
}

/// Every file of the given trees, tree after tree.
pub open spec fn all_files_of(ds: Seq<DirView>) -> Seq<FileView>
    decreases ds,
{
    if ds.len() == 0 {
        Seq::empty()
    } else {
        all_files_of(ds.drop_last()) + all_files(ds.last())
    }
}

/// The map from identifier to file that holds every file of `files`; of
/// two files with one identifier it holds the later.
pub open spec fn later_wins(files: Seq<FileView>) -> Map<Seq<char>, FileView>
    decreases files.len(),
{
    if files.len() == 0 {
        Map::empty()
    } else {
        later_wins(files.drop_last()).insert(files.last().path_hash, files.last())
    }
}

/// The flattened map of a tree.
pub open spec fn file_map(d: DirView) -> Map<Seq<char>, FileView> {
    later_wins(all_files(d))
}

/// Whether one of `entries` has the identifier `key`.
pub open spec fn has_key(entries: Seq<FileView>, key: Seq<char>) -> bool {
    exists|i: int| 0 <= i < entries.len() && (#[trigger] entries[i]).path_hash == key
}

/// The place of an entry with the identifier `key`, where there is one.
pub open spec fn position(entries: Seq<FileView>, key: Seq<char>) -> int {
    choose|i: int| 0 <= i < entries.len() && (#[trigger] entries[i]).path_hash == key
}

/// No two of `entries` share an identifier.
pub open spec fn distinct_keys(entries: Seq<FileView>) -> bool {
    forall|i: int, j: int|
        0 <= i < j < entries.len() ==> (#[trigger] entries[i]).path_hash != (
        #[trigger] entries[j]).path_hash
}

/// `entries` with `f` filed: in the place of the entry with `f`'s
/// identifier where there is one, at the end otherwise.
pub open spec fn upsert(entries: Seq<FileView>, f: FileView) -> Seq<FileView> {
    if has_key(entries, f.path_hash) {
        entries.update(position(entries, f.path_hash), f)
    } else {
        entries.push(f)
    }
}

/// `entries` with each of `files` filed in turn.
pub open spec fn filed(entries: Seq<FileView>, files: Seq<FileView>) -> Seq<FileView>
    decreases files.len(),
{
    if files.len() == 0 {
        entries
    } else {
        upsert(filed(entries, files.drop_last()), files.last())
    }
}

/// The entries of the index of a tree, in the order in which their
/// identifiers first occur in the walk.
pub open spec fn index_entries(d: DirView) -> Seq<FileView> {
    filed(Seq::empty(), all_files(d))
}

/// The map that a list of entries stands for.
pub open spec fn as_map(entries: Seq<FileView>) -> Map<Seq<char>, FileView> {
    Map::new(|k: Seq<char>| has_key(entries, k), |k: Seq<char>| entries[position(entries, k)])
}

/// Whether the local side must fetch `f`: it has no file under `f`'s
/// identifier, or one with another content hash.
pub open spec fn stale(local: Map<Seq<char>, FileView>, f: FileView) -> bool {
    !local.contains_key(f.path_hash) || local[f.path_hash].hash != f.hash
}

/// Those of `entries`, in order, that the local side must fetch.
pub open spec fn needed(local: Map<Seq<char>, FileView>, entries: Seq<FileView>) -> Seq<FileView>
    decreases entries.len(),
{
    if entries.len() == 0 {
        Seq::empty()
    } else if stale(local, entries.last()) {
        needed(local, entries.drop_last()).push(entries.last())
    } else {
        needed(local, entries.drop_last())
    }
}

/// What a local tree must fetch to hold every file of the base tree with
/// the base's content.
pub open spec fn diff(local: DirView, base: DirView) -> Seq<FileView> {
    needed(file_map(local), index_entries(base))
}

// ------------------------------------------------------------ lemmas

/// Among entries with distinct identifiers, an entry's identifier is found
/// at the entry's own place.
pub proof fn lemma_position(entries: Seq<FileView>, i: int)
    requires
        distinct_keys(entries),
        0 <= i < entries.len(),
    ensures
        has_key(entries, entries[i].path_hash),
        position(entries, entries[i].path_hash) == i,
{
    let key = entries[i].path_hash;
    let p = position(entries, key);
    assert(0 <= p < entries.len() && entries[p].path_hash == key);
    if p < i {
        assert(entries[p].path_hash != entries[i].path_hash);
    } else if i < p {
        assert(entries[i].path_hash != entries[p].path_hash);
    }
}

/// Filing a file keeps identifiers distinct, and puts the file into the
/// map under its identifier.
pub proof fn lemma_upsert(entries: Seq<FileView>, f: FileView)
    requires
        distinct_keys(entries),
    ensures
        distinct_keys(upsert(entries, f)),
        as_map(upsert(entries, f)) == as_map(entries).insert(f.path_hash, f),
{
    let after = upsert(entries, f);
    let key = f.path_hash;
    if has_key(entries, key) {
        let p = position(entries, key);
        assert(0 <= p < entries.len() && entries[p].path_hash == key);
        assert forall|i: int, j: int| 0 <= i < j < after.len() implies (#[trigger] after[i]).path_hash
            != (#[trigger] after[j]).path_hash by {
            assert(after[i].path_hash == entries[i].path_hash);
            assert(after[j].path_hash == entries[j].path_hash);
        }
        assert forall|k: Seq<char>| has_key(after, k) == (has_key(entries, k) || k == key) by {
            if has_key(after, k) {
                let i = position(after, k);
                assert(after[i].path_hash == entries[i].path_hash);
            }
            if has_key(entries, k) {
                let i = position(entries, k);
                assert(after[i].path_hash == entries[i].path_hash);
            }
        }
        assert forall|k: Seq<char>| has_key(after, k) implies after[position(after, k)] == (if k
            == key {
            f
        } else {
            entries[position(entries, k)]
        }) by {
            let i = position(after, k);
            assert(0 <= i < after.len() && after[i].path_hash == k);
            assert(after[i].path_hash == entries[i].path_hash);
            lemma_position(entries, i);
        }
    } else {
        assert forall|i: int, j: int| 0 <= i < j < after.len() implies (#[trigger] after[i]).path_hash
            != (#[trigger] after[j]).path_hash by {
            if j == entries.len() {
                assert(entries[i].path_hash != key);
            } else {
                assert(entries[i].path_hash != entries[j].path_hash);
            }
        }
        assert(after[entries.len() as int].path_hash == key);
        assert forall|k: Seq<char>| has_key(after, k) == (has_key(entries, k) || k == key) by {
            if has_key(after, k) {
                let i = position(after, k);
                if i < entries.len() {
                    assert(entries[i].path_hash == k);
                }
            }
            if has_key(entries, k) {
                let i = position(entries, k);
                assert(after[i].path_hash == k);
            }
        }
        assert forall|k: Seq<char>| has_key(after, k) implies after[position(after, k)] == (if k
            == key {
            f
        } else {
            entries[position(entries, k)]
        }) by {
            let i = position(after, k);
            assert(0 <= i < after.len() && after[i].path_hash == k);
            lemma_position(after, i);
            if k != key {
                assert(entries[i].path_hash == k);
                lemma_position(entries, i);
            } else {
                lemma_position(after, entries.len() as int);
            }
        }
    }
    assert(as_map(after) =~= as_map(entries).insert(key, f));
}

/// Filing keeps identifiers distinct, and the map of the result is the
/// map of the entries with each file put in, later over earlier.
pub proof fn lemma_filed(entries: Seq<FileView>, files: Seq<FileView>)
    requires
        distinct_keys(entries),
    ensures
        distinct_keys(filed(entries, files)),
        entries.len() == 0 ==> as_map(filed(entries, files)) == later_wins(files),
    decreases files.len(),
{
    if files.len() == 0 {
        if entries.len() == 0 {
            assert(as_map(entries) =~= Map::<Seq<char>, FileView>::empty());
        }
    } else {
        lemma_filed(entries, files.drop_last());
        lemma_upsert(filed(entries, files.drop_last()), files.last());
    }
}

/// Filing two lists one after the other is filing their concatenation.
pub proof fn lemma_filed_concat(entries: Seq<FileView>, a: Seq<FileView>, b: Seq<FileView>)
    ensures
        filed(entries, a + b) == filed(filed(entries, a), b),
    decreases b.len(),
{
    if b.len() == 0 {
        assert(a + b =~= a);
    } else {
        assert((a + b).drop_last() =~= a + b.drop_last());
        assert((a + b).last() == b.last());
        lemma_filed_concat(entries, a, b.drop_last());
    }
}

/// The index of a tree has one entry for each identifier, and stands for
/// the tree's flattened map.
pub proof fn lemma_index_entries(d: DirView)
    ensures
        distinct_keys(index_entries(d)),
        as_map(index_entries(d)) == file_map(d),
{
    lemma_filed(Seq::empty(), all_files(d));
}

// ------------------------------------------------------------ what the diff holds

/// The diff holds exactly the stale entries: each of its files is one of
/// `entries` and stale, and every stale entry is among them.
pub proof fn lemma_needed(local: Map<Seq<char>, FileView>, entries: Seq<FileView>)
    ensures
        forall|j: int|
            0 <= j < needed(local, entries).len() ==> stale(local, #[trigger] needed(local, entries)[j])
                && entries.contains(needed(local, entries)[j]),
        forall|i: int|
            0 <= i < entries.len() && stale(local, #[trigger] entries[i]) ==> needed(
                local,
                entries,
            ).contains(entries[i]),
        needed(local, entries).len() <= entries.len(),
    decreases entries.len(),
{
    if entries.len() > 0 {
        let init = entries.drop_last();
        let out = needed(local, entries);
        lemma_needed(local, init);
        assert forall|j: int| 0 <= j < out.len() implies stale(local, #[trigger] out[j])
            && entries.contains(out[j]) by {
            if j < needed(local, init).len() {
                let f = needed(local, init)[j];
                assert(init.contains(f));
                let w = choose|w: int| 0 <= w < init.len() && init[w] == f;
                assert(entries[w] == f);
            } else {
                assert(entries[entries.len() - 1] == out[j]);
            }
        }
        assert forall|i: int| 0 <= i < entries.len() && stale(local, #[trigger] entries[i]) implies out.contains(
            entries[i],
        ) by {
            if i < init.len() {
                assert(init[i] == entries[i]);
                assert(needed(local, init).contains(entries[i]));
                let w = choose|w: int|
                    0 <= w < needed(local, init).len() && needed(local, init)[w] == entries[i];
                assert(out[w] == entries[i]);
            } else {
                assert(out[out.len() - 1] == entries[i]);
            }
        }
    }
}

/// Where exactly one entry is stale, the diff is that entry alone.
pub proof fn lemma_needed_single(local: Map<Seq<char>, FileView>, entries: Seq<FileView>, p: int)
    requires
        0 <= p < entries.len(),
        stale(local, entries[p]),
        forall|i: int| 0 <= i < entries.len() && i != p ==> !stale(local, #[trigger] entries[i]),
    ensures
        needed(local, entries) == seq![entries[p]],
    decreases entries.len(),
{
    let init = entries.drop_last();
    if p == entries.len() - 1 {
        lemma_needed(local, init);
        if needed(local, init).len() > 0 {
            let f = needed(local, init)[0];
            assert(init.contains(f));
            let w = choose|w: int| 0 <= w < init.len() && init[w] == f;
            assert(entries[w] == f);
        }
        assert(needed(local, entries) =~= seq![entries[p]]);
    } else {
        assert forall|i: int| 0 <= i < init.len() && i != p implies !stale(local, #[trigger] init[i]) by {
            assert(init[i] == entries[i]);
        }
        assert(init[p] == entries[p]);
        lemma_needed_single(local, init, p);
        assert(!stale(local, entries[entries.len() - 1]));
    }
}

/// The diff is empty exactly when the local tree holds every file of the
/// base under the same identifier with the same content hash.
pub proof fn law_diff_empty_iff_in_sync(local: DirView, base: DirView)
    ensures
        diff(local, base).len() == 0 <==> (forall|k: Seq<char>| #[trigger]
            file_map(base).contains_key(k) ==> file_map(local).contains_key(k) && file_map(
                local,
            )[k].hash == file_map(base)[k].hash),
{
    let entries = index_entries(base);
    let ours = file_map(local);
    lemma_index_entries(base);
    lemma_needed(ours, entries);
    if diff(local, base).len() == 0 {
        assert forall|k: Seq<char>| #[trigger] file_map(base).contains_key(k) implies ours.contains_key(
            k,
        ) && ours[k].hash == file_map(base)[k].hash by {
            let i = position(entries, k);
            assert(0 <= i < entries.len() && entries[i].path_hash == k);
            if stale(ours, entries[i]) {
                assert(needed(ours, entries).contains(entries[i]));
            }
        }
    } else {
        let f = needed(ours, entries)[0];
        assert(stale(ours, f) && entries.contains(f));
        let w = choose|w: int| 0 <= w < entries.len() && entries[w] == f;
        lemma_position(entries, w);
        assert(file_map(base).contains_key(f.path_hash));
        assert(file_map(base)[f.path_hash] == f);
    }
}

/// Every file of the diff is a file of the base, filed there under its
/// identifier, that the local tree lacks or holds with another content
/// hash. So a file that only the local tree holds never appears.
pub proof fn law_diff_only_base_files(local: DirView, base: DirView, j: int)
    requires
        0 <= j < diff(local, base).len(),
    ensures
        file_map(base).contains_key(diff(local, base)[j].path_hash),
        file_map(base)[diff(local, base)[j].path_hash] == diff(local, base)[j],
        stale(file_map(local), diff(local, base)[j]),
{
    let entries = index_entries(base);
    lemma_index_entries(base);
    lemma_needed(file_map(local), entries);
    let f = diff(local, base)[j];
    assert(entries.contains(f));
    let w = choose|w: int| 0 <= w < entries.len() && entries[w] == f;
    lemma_position(entries, w);
}

/// Every file of a flattened map is filed under its own identifier.
pub proof fn lemma_file_map_keys(d: DirView, key: Seq<char>)
    requires
        file_map(d).contains_key(key),
    ensures
        file_map(d)[key].path_hash == key,
{
    lemma_index_entries(d);
    let p = position(index_entries(d), key);
    assert(0 <= p < index_entries(d).len() && index_entries(d)[p].path_hash == key);
}

/// Where a tree was in sync with the base and then loses the file with
/// identifier `key`, the diff is exactly the base's file of that
/// identifier.
pub proof fn law_removed_file_is_fetched(
    local: DirView,
    changed: DirView,
    base: DirView,
    key: Seq<char>,
)
    requires
        diff(local, base).len() == 0,
        file_map(base).contains_key(key),
        file_map(changed) == file_map(local).remove(key),
    ensures
        diff(changed, base) == seq![file_map(base)[key]],
{
    lemma_file_map_keys(base, key);
    lemma_one_stale(local, changed, base, key);
}

/// Where a tree was in sync with the base and then holds the file with
/// identifier `key` with another content hash, the diff is exactly the
/// base's file of that identifier.
pub proof fn law_corrupted_file_is_fetched(
    local: DirView,
    changed: DirView,
    base: DirView,
    key: Seq<char>,
    corrupted: FileView,
)
    requires
        diff(local, base).len() == 0,
        file_map(base).contains_key(key),
        corrupted.hash != file_map(base)[key].hash,
        file_map(changed) == file_map(local).insert(key, corrupted),
    ensures
        diff(changed, base) == seq![file_map(base)[key]],
{
    lemma_file_map_keys(base, key);
    lemma_one_stale(local, changed, base, key);
}

proof fn lemma_one_stale(local: DirView, changed: DirView, base: DirView, key: Seq<char>)
    requires
        diff(local, base).len() == 0,
        file_map(base).contains_key(key),
        stale(file_map(changed), file_map(base)[key]),
        forall|k: Seq<char>|
            k != key ==> (#[trigger] file_map(changed).contains_key(k) == file_map(
                local,
            ).contains_key(k)) && (file_map(local).contains_key(k) ==> file_map(changed)[k]
                == file_map(local)[k]),
    ensures
        diff(changed, base) == seq![file_map(base)[key]],
{
    let entries = index_entries(base);
    lemma_index_entries(base);
    lemma_needed(file_map(local), entries);
    let p = position(entries, key);
    assert(0 <= p < entries.len() && entries[p].path_hash == key);
    assert forall|i: int| 0 <= i < entries.len() && i != p implies !stale(
        file_map(changed),
        #[trigger] entries[i],
    ) by {
        lemma_position(entries, i);
        lemma_position(entries, p);
        if stale(file_map(local), entries[i]) {
            assert(needed(file_map(local), entries).contains(entries[i]));
        }
        assert(file_map(changed).contains_key(entries[i].path_hash) == file_map(
            local,
        ).contains_key(entries[i].path_hash));
    }
    lemma_needed_single(file_map(changed), entries, p);
}

// ------------------------------------------------------------ what fetching achieves

/// The local map after each of `files` was fetched and filed under its
/// identifier.
pub open spec fn fetched(local: Map<Seq<char>, FileView>, files: Seq<FileView>) -> Map<
    Seq<char>,
    FileView,
>
    decreases files.len(),
{
    if files.len() == 0 {
        local
    } else {
        fetched(local, files.drop_last()).insert(files.last().path_hash, files.last())
    }
}

/// After fetching, an identifier that none of the fetched files has is
/// filed as before, and one that a fetched file has holds a fetched file
/// with that identifier.
proof fn lemma_fetched(local: Map<Seq<char>, FileView>, files: Seq<FileView>, key: Seq<char>)
    ensures
        !has_key(files, key) ==> fetched(local, files).contains_key(key) == local.contains_key(key)
            && (local.contains_key(key) ==> fetched(local, files)[key] == local[key]),
        has_key(files, key) ==> fetched(local, files).contains_key(key) && files.contains(
            fetched(local, files)[key],
        ) && fetched(local, files)[key].path_hash == key,
    decreases files.len(),
{
    if files.len() > 0 {
        let init = files.drop_last();
        lemma_fetched(local, init, key);
        if has_key(init, key) {
            let p = position(init, key);
            assert(files[p].path_hash == key);
        }
        if files.last().path_hash == key {
            assert(files[files.len() - 1].path_hash == key);
        } else if has_key(files, key) {
            let p = position(files, key);
            assert(init[p].path_hash == key);
            let f = fetched(local, init)[key];
            let w = choose|w: int| 0 <= w < init.len() && init[w] == f;
            assert(files[w] == f);
        }
    }
}

/// Once the files of the diff are fetched, nothing is left to fetch; and
/// what the local side holds under an identifier that the base does not
/// have is left as it was.
pub proof fn law_fetching_the_diff_brings_in_sync(local: DirView, base: DirView)
    ensures
        needed(fetched(file_map(local), diff(local, base)), index_entries(base)).len() == 0,
        forall|key: Seq<char>|
            !file_map(base).contains_key(key) ==> (#[trigger] fetched(
                file_map(local),
                diff(local, base),
            ).contains_key(key)) == file_map(local).contains_key(key) && (file_map(
                local,
            ).contains_key(key) ==> fetched(file_map(local), diff(local, base))[key] == file_map(
                local,
            )[key]),
{
    let ours = file_map(local);
    let entries = index_entries(base);
    let wanted = diff(local, base);
    let after = fetched(ours, wanted);
    lemma_index_entries(base);
    lemma_needed(ours, entries);
    assert forall|i: int| 0 <= i < entries.len() implies !stale(after, #[trigger] entries[i]) by {
        let e = entries[i];
        lemma_fetched(ours, wanted, e.path_hash);
        lemma_position(entries, i);
        if has_key(wanted, e.path_hash) {
            let f = after[e.path_hash];
            assert(wanted.contains(f));
            let j = choose|j: int| 0 <= j < wanted.len() && wanted[j] == f;
            assert(entries.contains(wanted[j]));
            let w = choose|w: int| 0 <= w < entries.len() && entries[w] == f;
            lemma_position(entries, w);
        } else {
            if stale(ours, e) {
                assert(wanted.contains(e));
                let j = choose|j: int| 0 <= j < wanted.len() && wanted[j] == e;
                assert(wanted[j].path_hash == e.path_hash);
            }
        }
    }
    lemma_needed(after, entries);
    if needed(after, entries).len() > 0 {
        let f = needed(after, entries)[0];
        assert(entries.contains(f));
        let w = choose|w: int| 0 <= w < entries.len() && entries[w] == f;
        assert(!stale(after, entries[w]));
    }
    assert forall|key: Seq<char>| !file_map(base).contains_key(key) implies (#[trigger] after.contains_key(
        key,
    )) == ours.contains_key(key) && (ours.contains_key(key) ==> after[key] == ours[key]) by {
        lemma_fetched(ours, wanted, key);
        if has_key(wanted, key) {
            let p = position(wanted, key);
            assert(entries.contains(wanted[p]));
            let w = choose|w: int| 0 <= w < entries.len() && entries[w] == wanted[p];
            assert(entries[w].path_hash == key);
        }
    }
}

// ------------------------------------------------------------ the index

/// The views of the files that a list of references points to.
pub open spec fn ref_views(files: Seq<&FileInfo>) -> Seq<FileView> {
    Seq::new(files.len(), |i: int| files[i]@)
}

/// The identifiers of a list of files.
pub open spec fn keys_of(entries: Seq<FileView>) -> Seq<Seq<char>> {
    Seq::new(entries.len(), |i: int| entries[i].path_hash)
}

/// The flattened index of a snapshot: its files by identifier, one entry
/// for each identifier.
pub struct FileIndex<'a> {
    table: KeyTable,
    entries: Vec<&'a FileInfo>,
}

impl<'a> View for FileIndex<'a> {
    type V = Map<Seq<char>, FileView>;

    open spec fn view(&self) -> Map<Seq<char>, FileView> {
        as_map(self.listing())
    }
}

impl<'a> FileIndex<'a> {
    /// No two entries share an identifier, and the table of identifiers
    /// agrees with the entries. Every index that this module hands out is
    /// well formed.
    pub closed spec fn wf(&self) -> bool {
        &&& self.table.wf()
        &&& self.table@ == keys_of(ref_views(self.entries@))
    }

    /// The entries in the order in which their identifiers were first
    /// filed.
    pub closed spec fn listing(&self) -> Seq<FileView> {
        ref_views(self.entries@)
    }

    /// The entries of a well-formed index have distinct identifiers.
    pub proof fn lemma_wf(self)
        requires
            self.wf(),
        ensures
            distinct_keys(self.listing()),
    {
        self.table.lemma_distinct();
        let entries = self.listing();
        assert forall|i: int, j: int| 0 <= i < j < entries.len() implies (
        #[trigger] entries[i]).path_hash != (#[trigger] entries[j]).path_hash by {
            assert(self.table@[i] == entries[i].path_hash);
            assert(self.table@[j] == entries[j].path_hash);
        }
    }

    /// An index without entries.
    pub fn new() -> (r: Self)
        ensures
            r.wf(),
            r.listing() == Seq::<FileView>::empty(),
    {
        let r = FileIndex { table: KeyTable::new(), entries: Vec::new() };
        assert(ref_views(r.entries@) =~= Seq::<FileView>::empty());
        assert(r.table@ =~= keys_of(ref_views(r.entries@)));
        r
    }

    /// The number of entries.
    pub fn len(&self) -> (n: usize)
        ensures
            n == self.listing().len(),
    {
        self.entries.len()
    }

    /// The entry at place `i` of the listing.
    pub fn entry(&self, i: usize) -> (f: &'a FileInfo)
        requires
            i < self.listing().len(),
        ensures
            f@ == self.listing()[i as int],
    {
        self.entries[i]
    }

    /// The entries, in the order of the listing.
    pub fn entries(&self) -> (r: Vec<&'a FileInfo>)
        ensures
            ref_views(r@) == self.listing(),
    {
        self.entries.clone()
    }

    /// The place of the entry with identifier `key`.
    pub fn find(&self, key: &str) -> (r: Option<usize>)
        requires
            self.wf(),
        ensures
            match r {
                Some(i) => has_key(self.listing(), key@) && i == position(self.listing(), key@),
                None => !has_key(self.listing(), key@),
            },
    {
        proof {
            self.lemma_wf();
        }
        match self.table.find(key) {
            Some(i) => {
                proof {
                    assert(self.table@[i as int] == self.listing()[i as int].path_hash);
                    lemma_position(self.listing(), i as int);
                }
                Some(i)
            },
            None => {
                proof {
                    if has_key(self.listing(), key@) {
                        let p = position(self.listing(), key@);
                        assert(self.table@[p] == self.listing()[p].path_hash);
                    }
                }
                None
            },
        }
    }

    /// The file filed under `key`.
    pub fn get(&self, key: &str) -> (r: Option<&'a FileInfo>)
        requires
            self.wf(),
        ensures
            match r {
                Some(f) => self@.contains_key(key@) && self@[key@] == f@,
                None => !self@.contains_key(key@),
            },
    {
        match self.find(key) {
            Some(i) => Some(self.entries[i]),
            None => None,
        }
    }

    /// Files `file` under its identifier, in the place of the entry that
    /// has that identifier where there is one.
    pub fn insert(&mut self, file: &'a FileInfo)
        requires
            old(self).wf(),
        ensures
            final(self).wf(),
            final(self).listing() == upsert(old(self).listing(), file@),
            final(self)@ == old(self)@.insert(file@.path_hash, file@),
    {
        proof {
            self.lemma_wf();
            lemma_upsert(self.listing(), file@);
        }
        match self.find(file.path_hash.as_str()) {
            Some(i) => {
                self.entries.set(i, file);
                assert(ref_views(self.entries@) =~= upsert(old(self).listing(), file@));
                assert(keys_of(ref_views(self.entries@)) =~= keys_of(old(self).listing()));
            },
            None => {
                proof {
                    assert forall|i: int| 0 <= i < self.table@.len() implies self.table@[i]
                        != file.path_hash@ by {
                        assert(self.table@[i] == self.listing()[i].path_hash);
                    }
                }
                self.table.push(file.path_hash.clone());
                self.entries.push(file);
                assert(ref_views(self.entries@) =~= upsert(old(self).listing(), file@));
                assert(keys_of(ref_views(self.entries@)) =~= keys_of(old(self).listing()).push(
                    file.path_hash@,
                ));
            },
        }
    }

    /// Files every file of the tree `dir`, in the order of the walk.
    pub fn insert_tree(&mut self, dir: &'a DirInfo)
        requires
            old(self).wf(),
        ensures
            final(self).wf(),
            final(self).listing() == filed(old(self).listing(), all_files(dir@)),
        decreases dir,
    {
        let mut i: usize = 0;
        assert(dir@.files.take(0) =~= Seq::<FileView>::empty());
        while i < dir.files.len()
            invariant
                i <= dir.files@.len(),
                self.wf(),
                self.listing() == filed(old(self).listing(), dir@.files.take(i as int)),
            decreases dir.files@.len() - i,
        {
            self.insert(&dir.files[i]);
            proof {
                let next = dir@.files.take(i + 1);
                assert(next.drop_last() =~= dir@.files.take(i as int));
                assert(next.last() == dir.files@[i as int]@);
            }
            i = i + 1;
        }
        assert(dir@.files.take(i as int) =~= dir@.files);
        let mut k: usize = 0;
        assert(dir@.subdirs.take(0) =~= Seq::<DirView>::empty());
        assert(dir@.files + all_files_of(dir@.subdirs.take(0)) =~= dir@.files);
        while k < dir.subdirs.len()
            invariant
                k <= dir.subdirs@.len(),
                self.wf(),
                self.listing() == filed(
                    old(self).listing(),
                    dir@.files + all_files_of(dir@.subdirs.take(k as int)),
                ),
            decreases dir.subdirs@.len() - k,
        {
            let ghost before = dir@.files + all_files_of(dir@.subdirs.take(k as int));
            self.insert_tree(&dir.subdirs[k]);
            proof {
                let next = dir@.subdirs.take(k + 1);
                assert(next.drop_last() =~= dir@.subdirs.take(k as int));
                assert(next.last() == dir.subdirs@[k as int]@);
                lemma_filed_concat(old(self).listing(), before, all_files(dir.subdirs@[k as int]@));
                assert(before + all_files(dir.subdirs@[k as int]@) =~= dir@.files + all_files_of(
                    next,
                ));
            }
            k = k + 1;
        }
        assert(dir@.subdirs.take(k as int) =~= dir@.subdirs);
    }
}

impl DirInfo {
    /// The flattened index of the tree: every file, whatever its depth,
    /// under its identifier. Of two files with one identifier the later in
    /// the walk is kept.
    pub fn flat_hashes(&self) -> (r: FileIndex<'_>)
        ensures
            r.wf(),
            r.listing() == index_entries(self@),
            r@ == file_map(self@),
    {
        let mut index = FileIndex::new();
        index.insert_tree(self);
        proof {
            lemma_index_entries(self@);
        }
        index
    }

    /// The files of `base` that this tree lacks or holds with another
    /// content hash, in the order of the base's index. A file that only
    /// this tree holds is never among them.
    pub fn diff_with<'a>(&self, base: &'a DirInfo) -> (r: Vec<&'a FileInfo>)
        ensures
            ref_views(r@) == diff(self@, base@),
    {
        let theirs = base.flat_hashes();
        let ours = self.flat_hashes();
        let mut result: Vec<&'a FileInfo> = Vec::new();
        let mut i: usize = 0;
        assert(theirs.listing().take(0) =~= Seq::<FileView>::empty());
        assert(ref_views(result@) =~= Seq::<FileView>::empty());
        while i < theirs.len()
            invariant
                i <= theirs.listing().len(),
                ours.wf(),
                ours@ == file_map(self@),
                ref_views(result@) == needed(ours@, theirs.listing().take(i as int)),
            decreases theirs.listing().len() - i,
        {
            let f = theirs.entry(i);
            let fetch = match ours.get(f.path_hash.as_str()) {
                None => true,
                Some(mine) => !str_eq(mine.hash.as_str(), f.hash.as_str()),
            };
            proof {
                let next = theirs.listing().take(i + 1);
                assert(next.drop_last() =~= theirs.listing().take(i as int));
                assert(next.last() == f@);
                assert(fetch == stale(ours@, f@));
            }
            if fetch {
                let ghost before = ref_views(result@);
                result.push(f);
                assert(ref_views(result@) =~= before.push(f@));
            }
            i = i + 1;
        }
        assert(theirs.listing().take(i as int) =~= theirs.listing());
        result
    }
}

} // verus!
