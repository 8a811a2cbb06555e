//! How a snapshot is written to the wire.
//!
//! A file is its identifier, its name, its size, its time of last write and
//! its content hash, in that order; its local path is not sent, and a file
//! read from the wire has an empty one. A directory is its path, the number
//! of its files and the files, the number of directories below it and those
//! directories.

use crate::fileinfo::{file_views, DirInfo, DirView, FileInfo, FileView};
use crate::wire::{
    holds_at, lemma_holds_at_concat, lemma_parse_text, lemma_parse_u64, lemma_parsed_text,
    lemma_parsed_u64, parse_text, parse_u64, put_text, put_u64, take_text, take_u64, text, u64_le,
};
use vstd::prelude::*;
use vstd::utf8::*;

verus! {

// ------------------------------------------------------------ files

/// The bytes of a file.
pub open spec fn ser_file(f: FileView) -> Seq<u8> {
    text(f.path_hash) + text(f.name) + u64_le(f.size) + u64_le(f.modified) + text(f.hash)
}

/// The file that stands at `pos`, and the number of bytes it takes.
pub open spec fn parse_file(s: Seq<u8>, pos: int) -> Option<(FileView, nat)> {
    match parse_text(s, pos) {
        None => None,
        Some((path_hash, a)) => match parse_text(s, pos + a) {
            None => None,
            Some((name, b)) => match parse_u64(s, pos + a + b) {
                None => None,
                Some((size, c)) => match parse_u64(s, pos + a + b + c) {
                    None => None,
                    Some((modified, d)) => match parse_text(s, pos + a + b + c + d) {
                        None => None,
                        Some((hash, e)) => Some(
                            (
                                FileView {
                                    path: Seq::empty(),
                                    path_hash,
                                    name,
                                    size,
                                    modified,
                                    hash,
                                },
                                a + b + c + d + e,
                            ),
                        ),
                    },
                },
            },
        },
    }
}

/// The file as the receiver sees it: without the local path.
pub open spec fn sent_file(f: FileView) -> FileView {
    FileView { path: Seq::empty(), ..f }
}

/// Every text of the file has a length that fits the wire's length field.
pub open spec fn file_fits(f: FileView) -> bool {
    &&& encode_utf8(f.path_hash).len() <= u64::MAX
    &&& encode_utf8(f.name).len() <= u64::MAX
    &&& encode_utf8(f.hash).len() <= u64::MAX
}

/// Where the encoding of `f` stands at a position, `f` is read there,
/// without its local path.
pub proof fn lemma_parse_file(s: Seq<u8>, pos: int, f: FileView)
    requires
        file_fits(f),
        holds_at(s, pos, ser_file(f)),
    ensures
        parse_file(s, pos) == Some((sent_file(f), ser_file(f).len())),
{
    let p1 = text(f.path_hash);
    let p2 = text(f.name);
    let p3 = u64_le(f.size);
    let p4 = u64_le(f.modified);
    let p5 = text(f.hash);
    lemma_holds_at_concat(s, pos, p1 + p2 + p3 + p4, p5);
    lemma_holds_at_concat(s, pos, p1 + p2 + p3, p4);
    lemma_holds_at_concat(s, pos, p1 + p2, p3);
    lemma_holds_at_concat(s, pos, p1, p2);
    lemma_parse_text(s, pos, f.path_hash);
    lemma_parse_text(s, pos + p1.len(), f.name);
    lemma_parse_u64(s, pos + p1.len() + p2.len(), f.size);
    assert((p1 + p2 + p3).len() == p1.len() + p2.len() + 8);
    lemma_parse_u64(s, pos + p1.len() + p2.len() + 8, f.modified);
    assert((p1 + p2 + p3 + p4).len() == p1.len() + p2.len() + 16);
    lemma_parse_text(s, pos + p1.len() + p2.len() + 16, f.hash);
}

/// The file read at a position is written as the bytes that stand there.
pub proof fn lemma_parsed_file(s: Seq<u8>, pos: int)
    requires
        parse_file(s, pos) is Some,
    ensures
        holds_at(s, pos, ser_file(parse_file(s, pos).unwrap().0)),
        parse_file(s, pos).unwrap().1 == ser_file(parse_file(s, pos).unwrap().0).len(),
        file_fits(parse_file(s, pos).unwrap().0),
{
    let f = parse_file(s, pos).unwrap().0;
    let p1 = text(f.path_hash);
    let p2 = text(f.name);
    let p3 = u64_le(f.size);
    let p4 = u64_le(f.modified);
    let p5 = text(f.hash);
    lemma_parsed_text(s, pos);
    lemma_parsed_text(s, pos + p1.len());
    lemma_parsed_u64(s, pos + p1.len() + p2.len());
    lemma_parsed_u64(s, pos + p1.len() + p2.len() + 8);
    lemma_parsed_text(s, pos + p1.len() + p2.len() + 16);
    lemma_holds_at_concat(s, pos, p1, p2);
    lemma_holds_at_concat(s, pos, p1 + p2, p3);
    assert((p1 + p2 + p3).len() == p1.len() + p2.len() + 8);
    lemma_holds_at_concat(s, pos, p1 + p2 + p3, p4);
    assert((p1 + p2 + p3 + p4).len() == p1.len() + p2.len() + 16);
    lemma_holds_at_concat(s, pos, p1 + p2 + p3 + p4, p5);
}

/// The bytes of a list of files, one after the other.
pub open spec fn ser_files(fs: Seq<FileView>) -> Seq<u8>
    decreases fs.len(),
{
    if fs.len() == 0 {
        Seq::empty()
    } else {
        ser_files(fs.drop_last()) + ser_file(fs.last())
    }
}

/// `n` files, one after the other.
pub open spec fn parse_files(s: Seq<u8>, pos: int, n: nat) -> Option<(Seq<FileView>, nat)>
    decreases n,
{
    if n == 0 {
        Some((Seq::empty(), 0nat))
    } else {
        match parse_files(s, pos, (n - 1) as nat) {
            None => None,
            Some((fs, a)) => match parse_file(s, pos + a) {
                None => None,
                Some((f, b)) => Some((fs.push(f), a + b)),
            },
        }
    }
}

/// Where fewer files cannot be read, more cannot either.
pub proof fn lemma_parse_files_stuck(s: Seq<u8>, pos: int, i: nat, n: nat)
    requires
        i <= n,
        parse_files(s, pos, i) is None,
    ensures
        parse_files(s, pos, n) is None,
    decreases n,
{
    if i < n {
        lemma_parse_files_stuck(s, pos, i, (n - 1) as nat);
    }
}

/// The files read at a position are written as the bytes that stand
/// there, and they are as many as were asked for.
pub proof fn lemma_parsed_files(s: Seq<u8>, pos: int, n: nat)
    requires
        parse_files(s, pos, n) is Some,
    ensures
        0 <= pos <= s.len() ==> holds_at(s, pos, ser_files(parse_files(s, pos, n).unwrap().0)),
        parse_files(s, pos, n).unwrap().1 == ser_files(parse_files(s, pos, n).unwrap().0).len(),
        parse_files(s, pos, n).unwrap().0.len() == n,
        forall|i: int| 0 <= i < n ==> file_fits(#[trigger] parse_files(s, pos, n).unwrap().0[i]),
        0 <= pos <= s.len() || n == 0,
    decreases n,
{
    if n > 0 {
        let (init, a) = parse_files(s, pos, (n - 1) as nat).unwrap();
        lemma_parsed_files(s, pos, (n - 1) as nat);
        lemma_parsed_file(s, pos + a);
        let f = parse_file(s, pos + a).unwrap().0;
        let all = init.push(f);
        assert(all.drop_last() =~= init);
        lemma_holds_at_concat(s, pos, ser_files(init), ser_file(f));
        assert forall|i: int| 0 <= i < n implies file_fits(#[trigger] all[i]) by {
            if i < n - 1 {
                assert(all[i] == init[i]);
            }
        }
        assert(0 <= pos <= s.len());
        assert(parse_files(s, pos, n).unwrap().0 == all);
        assert(ser_files(all) == ser_files(init) + ser_file(f));
    } else if 0 <= pos <= s.len() {
        assert(s.subrange(pos, pos) =~= Seq::<u8>::empty());
    }
}

/// The files as the receiver sees them.
pub open spec fn sent_files(fs: Seq<FileView>) -> Seq<FileView> {
    Seq::new(fs.len(), |i: int| sent_file(fs[i]))
}

/// The list and every file of it fit the wire's length fields.
pub open spec fn files_fit(fs: Seq<FileView>) -> bool {
    &&& fs.len() <= u64::MAX
    &&& forall|i: int| 0 <= i < fs.len() ==> file_fits(#[trigger] fs[i])
}

/// Where the encodings of `fs` stand at a position, one after the other,
/// these files are read there, without their local paths.
pub proof fn lemma_parse_files(s: Seq<u8>, pos: int, fs: Seq<FileView>)
    requires
        files_fit(fs),
        holds_at(s, pos, ser_files(fs)),
    ensures
        parse_files(s, pos, fs.len()) == Some((sent_files(fs), ser_files(fs).len())),
    decreases fs.len(),
{
    if fs.len() == 0 {
        assert(sent_files(fs) =~= Seq::<FileView>::empty());
    } else {
        let init = fs.drop_last();
        lemma_holds_at_concat(s, pos, ser_files(init), ser_file(fs.last()));
        assert(files_fit(init)) by {
            assert forall|i: int| 0 <= i < init.len() implies file_fits(#[trigger] init[i]) by {
                assert(init[i] == fs[i]);
            }
        }
        lemma_parse_files(s, pos, init);
        lemma_parse_file(s, pos + ser_files(init).len(), fs.last());
        assert(sent_files(init).push(sent_file(fs.last())) =~= sent_files(fs));
    }
}

// ------------------------------------------------------------ directories

/// The bytes of a tree.
pub open spec fn ser_dir(d: DirView) -> Seq<u8>
    decreases d,
{
    text(d.path) + u64_le(d.files.len() as u64) + ser_files(d.files) + u64_le(
        d.subdirs.len() as u64,
    ) + ser_dirs(d.subdirs)
}

/// The bytes of a list of trees, one after the other.
pub open spec fn ser_dirs(ds: Seq<DirView>) -> Seq<u8>
    decreases ds,
{
    if ds.len() == 0 {
        Seq::empty()
    } else {
        ser_dirs(ds.drop_last()) + ser_dir(ds.last())
    }
}

/// The number of bytes of `s` from `pos` on.
pub open spec fn left(s: Seq<u8>, pos: int) -> nat {
    if pos <= s.len() {
        (s.len() - pos) as nat
    } else {
        0
    }
}

/// The tree that stands at `pos`, and the number of bytes it takes.
pub open spec fn parse_dir(s: Seq<u8>, pos: int) -> Option<(DirView, nat)>
    decreases left(s, pos), 0nat,
{
    match parse_text(s, pos) {
        None => None,
        Some((path, a)) => match parse_u64(s, pos + a) {
            None => None,
            Some((file_count, b)) => match parse_files(s, pos + a + b, file_count as nat) {
                None => None,
                Some((files, c)) => match parse_u64(s, pos + a + b + c) {
                    None => None,
                    Some((dir_count, d)) => match parse_dirs(
                        s,
                        pos + a + b + c + d,
                        dir_count as nat,
                    ) {
                        None => None,
                        Some((subdirs, e)) => Some(
                            (DirView { path, files, subdirs }, a + b + c + d + e),
                        ),
                    },
                },
            },
        },
    }
}

/// `n` directories, one after the other.
pub open spec fn parse_dirs(s: Seq<u8>, pos: int, n: nat) -> Option<(Seq<DirView>, nat)>
    decreases left(s, pos), n + 1,
{
    if n == 0 {
        Some((Seq::empty(), 0nat))
    } else {
        match parse_dirs(s, pos, (n - 1) as nat) {
            None => None,
            Some((ds, a)) => match parse_dir(s, pos + a) {
                None => None,
                Some((d, b)) => Some((ds.push(d), a + b)),
            },
        }
    }
}

/// Where fewer directories cannot be read, more cannot either.
pub proof fn lemma_parse_dirs_stuck(s: Seq<u8>, pos: int, i: nat, n: nat)
    requires
        i <= n,
        parse_dirs(s, pos, i) is None,
    ensures
        parse_dirs(s, pos, n) is None,
    decreases n,
{
    if i < n {
        lemma_parse_dirs_stuck(s, pos, i, (n - 1) as nat);
    }
}

/// The tree as the receiver sees it: no file has a local path.
pub open spec fn sent_dir(d: DirView) -> DirView
    decreases d,
{
    DirView {
        path: d.path,
        files: sent_files(d.files),
        subdirs: Seq::new(
            d.subdirs.len(),
            |i: int| if 0 <= i < d.subdirs.len() { sent_dir(d.subdirs[i]) } else { arbitrary() },
        ),
    }
}

/// The trees as the receiver sees them.
pub open spec fn sent_dirs(ds: Seq<DirView>) -> Seq<DirView> {
    Seq::new(ds.len(), |i: int| sent_dir(ds[i]))
}

/// Every text and every list of the tree has a length that fits the wire's
/// length field.
pub open spec fn dir_fits(d: DirView) -> bool
    decreases d,
{
    &&& encode_utf8(d.path).len() <= u64::MAX
    &&& files_fit(d.files)
    &&& d.subdirs.len() <= u64::MAX
    &&& forall|i: int| 0 <= i < d.subdirs.len() ==> dir_fits(#[trigger] d.subdirs[i])
}

/// Where the encoding of `d` stands at a position, `d` is read there,
/// without the local paths of its files.
pub proof fn lemma_parse_dir(s: Seq<u8>, pos: int, d: DirView)
    requires
        dir_fits(d),
        holds_at(s, pos, ser_dir(d)),
    ensures
        parse_dir(s, pos) == Some((sent_dir(d), ser_dir(d).len())),
    decreases d, 1nat,
{
    let p1 = text(d.path);
    let p2 = u64_le(d.files.len() as u64);
    let p3 = ser_files(d.files);
    let p4 = u64_le(d.subdirs.len() as u64);
    let p5 = ser_dirs(d.subdirs);
    lemma_holds_at_concat(s, pos, p1 + p2 + p3 + p4, p5);
    lemma_holds_at_concat(s, pos, p1 + p2 + p3, p4);
    lemma_holds_at_concat(s, pos, p1 + p2, p3);
    lemma_holds_at_concat(s, pos, p1, p2);
    lemma_parse_text(s, pos, d.path);
    lemma_parse_u64(s, pos + p1.len(), d.files.len() as u64);
    assert((p1 + p2).len() == p1.len() + 8);
    lemma_parse_files(s, pos + p1.len() + 8, d.files);
    assert((p1 + p2 + p3).len() == p1.len() + 8 + p3.len());
    lemma_parse_u64(s, pos + p1.len() + 8 + p3.len(), d.subdirs.len() as u64);
    assert((p1 + p2 + p3 + p4).len() == p1.len() + 8 + p3.len() + 8);
    lemma_parse_dirs(s, pos + p1.len() + 8 + p3.len() + 8, d.subdirs);
    assert(sent_dirs(d.subdirs) =~= sent_dir(d).subdirs);
}

/// Where the encodings of `ds` stand at a position, one after the other,
/// these trees are read there, without the local paths of their files.
pub proof fn lemma_parse_dirs(s: Seq<u8>, pos: int, ds: Seq<DirView>)
    requires
        forall|i: int| 0 <= i < ds.len() ==> dir_fits(#[trigger] ds[i]),
        holds_at(s, pos, ser_dirs(ds)),
    ensures
        parse_dirs(s, pos, ds.len()) == Some((sent_dirs(ds), ser_dirs(ds).len())),
    decreases ds, 0nat,
{
    if ds.len() == 0 {
        assert(sent_dirs(ds) =~= Seq::<DirView>::empty());
    } else {
        let init = ds.drop_last();
        lemma_holds_at_concat(s, pos, ser_dirs(init), ser_dir(ds.last()));
        assert forall|i: int| 0 <= i < init.len() implies dir_fits(#[trigger] init[i]) by {
            assert(init[i] == ds[i]);
        }
        lemma_parse_dirs(s, pos, init);
        lemma_parse_dir(s, pos + ser_dirs(init).len(), ds.last());
        assert(sent_dirs(init).push(sent_dir(ds.last())) =~= sent_dirs(ds));
    }
}

/// The tree read at a position is written as the bytes that stand there;
/// it has no local paths.
pub proof fn lemma_parsed_dir(s: Seq<u8>, pos: int)
    requires
        parse_dir(s, pos) is Some,
    ensures
        holds_at(s, pos, ser_dir(parse_dir(s, pos).unwrap().0)),
        parse_dir(s, pos).unwrap().1 == ser_dir(parse_dir(s, pos).unwrap().0).len(),
        dir_fits(parse_dir(s, pos).unwrap().0),
        no_local_paths(parse_dir(s, pos).unwrap().0),
    decreases left(s, pos), 0nat,
{
    let d = parse_dir(s, pos).unwrap().0;
    let p1 = text(d.path);
    let p2 = u64_le(d.files.len() as u64);
    let p3 = ser_files(d.files);
    let p4 = u64_le(d.subdirs.len() as u64);
    let p5 = ser_dirs(d.subdirs);
    lemma_parsed_text(s, pos);
    lemma_parsed_u64(s, pos + p1.len());
    let file_count = parse_u64(s, pos + p1.len()).unwrap().0;
    lemma_parsed_files(s, pos + p1.len() + 8, file_count as nat);
    lemma_parsed_u64(s, pos + p1.len() + 8 + p3.len());
    let dir_count = parse_u64(s, pos + p1.len() + 8 + p3.len()).unwrap().0;
    lemma_parsed_dirs(s, pos + p1.len() + 8 + p3.len() + 8, dir_count as nat);
    lemma_holds_at_concat(s, pos, p1, p2);
    assert((p1 + p2).len() == p1.len() + 8);
    lemma_holds_at_concat(s, pos, p1 + p2, p3);
    assert((p1 + p2 + p3).len() == p1.len() + 8 + p3.len());
    lemma_holds_at_concat(s, pos, p1 + p2 + p3, p4);
    assert((p1 + p2 + p3 + p4).len() == p1.len() + 8 + p3.len() + 8);
    lemma_holds_at_concat(s, pos, p1 + p2 + p3 + p4, p5);
    assert forall|i: int| 0 <= i < d.files.len() implies (#[trigger] d.files[i]).path.len()
        == 0 by {
        lemma_parsed_files_no_paths(s, pos + p1.len() + 8, file_count as nat, i);
    }
}

/// The trees read at a position are written as the bytes that stand there,
/// and they are as many as were asked for.
pub proof fn lemma_parsed_dirs(s: Seq<u8>, pos: int, n: nat)
    requires
        parse_dirs(s, pos, n) is Some,
    ensures
        0 <= pos <= s.len() ==> holds_at(s, pos, ser_dirs(parse_dirs(s, pos, n).unwrap().0)),
        parse_dirs(s, pos, n).unwrap().1 == ser_dirs(parse_dirs(s, pos, n).unwrap().0).len(),
        parse_dirs(s, pos, n).unwrap().0.len() == n,
        forall|i: int| 0 <= i < n ==> dir_fits(#[trigger] parse_dirs(s, pos, n).unwrap().0[i]),
        forall|i: int|
            0 <= i < n ==> no_local_paths(#[trigger] parse_dirs(s, pos, n).unwrap().0[i]),
        0 <= pos <= s.len() || n == 0,
    decreases left(s, pos), n + 1,
{
    if n > 0 {
        let (init, a) = parse_dirs(s, pos, (n - 1) as nat).unwrap();
        lemma_parsed_dirs(s, pos, (n - 1) as nat);
        lemma_parsed_dir(s, pos + a);
        let d = parse_dir(s, pos + a).unwrap().0;
        let all = init.push(d);
        assert(all.drop_last() =~= init);
        lemma_holds_at_concat(s, pos, ser_dirs(init), ser_dir(d));
        assert forall|i: int| 0 <= i < n implies dir_fits(#[trigger] all[i]) && no_local_paths(
            all[i],
        ) by {
            if i < n - 1 {
                assert(all[i] == init[i]);
            }
        }
        assert(0 <= pos <= s.len());
        assert(parse_dirs(s, pos, n).unwrap().0 == all);
        assert(ser_dirs(all) == ser_dirs(init) + ser_dir(d));
    } else if 0 <= pos <= s.len() {
        assert(s.subrange(pos, pos) =~= Seq::<u8>::empty());
    }
}

proof fn lemma_parsed_files_no_paths(s: Seq<u8>, pos: int, n: nat, i: int)
    requires
        parse_files(s, pos, n) is Some,
        0 <= i < parse_files(s, pos, n).unwrap().0.len(),
    ensures
        parse_files(s, pos, n).unwrap().0[i].path.len() == 0,
    decreases n,
{
    if n > 0 {
        let (init, a) = parse_files(s, pos, (n - 1) as nat).unwrap();
        lemma_parsed_files(s, pos, (n - 1) as nat);
        if i < init.len() {
            lemma_parsed_files_no_paths(s, pos, (n - 1) as nat, i);
        }
    }
}

/// No file of the tree has a local path, as in a tree that was read from
/// the wire.
pub open spec fn no_local_paths(d: DirView) -> bool
    decreases d,
{
    &&& forall|i: int| 0 <= i < d.files.len() ==> (#[trigger] d.files[i]).path.len() == 0
    &&& forall|i: int| 0 <= i < d.subdirs.len() ==> no_local_paths(#[trigger] d.subdirs[i])
}

/// A tree without local paths is sent as it is.
pub proof fn lemma_sent_without_paths(d: DirView)
    requires
        no_local_paths(d),
    ensures
        sent_dir(d) == d,
    decreases d,
{
    assert forall|i: int| 0 <= i < d.files.len() implies sent_file(#[trigger] d.files[i])
        == d.files[i] by {
        assert(d.files[i].path =~= Seq::<char>::empty());
    }
    assert(sent_dir(d).files =~= d.files);
    assert forall|i: int| 0 <= i < d.subdirs.len() implies sent_dir(#[trigger] d.subdirs[i])
        == d.subdirs[i] by {
        lemma_sent_without_paths(d.subdirs[i]);
    }
    assert(sent_dir(d).subdirs =~= d.subdirs);
}

// ------------------------------------------------------------ writing

/// Appends the file to `out`.
pub fn encode_file(f: &FileInfo, out: &mut Vec<u8>)
    ensures
        final(out)@ == old(out)@ + ser_file(f@),
        file_fits(f@),
{
    put_text(out, f.path_hash.as_str());
    put_text(out, f.name.as_str());
    put_u64(out, f.size);
    put_u64(out, f.modified);
    put_text(out, f.hash.as_str());
    assert(out@ =~= old(out)@ + ser_file(f@));
}

/// Appends the tree to `out`.
pub fn encode_dir(d: &DirInfo, out: &mut Vec<u8>)
    ensures
        final(out)@ == old(out)@ + ser_dir(d@),
        dir_fits(d@),
    decreases d,
{
    put_text(out, d.path.as_str());
    put_u64(out, d.files.len() as u64);
    let ghost head = out@;
    let mut i: usize = 0;
    assert(d@.files.take(0) =~= Seq::<FileView>::empty());
    assert(head + ser_files(d@.files.take(0)) =~= head);
    while i < d.files.len()
        invariant
            i <= d.files@.len(),
            out@ == head + ser_files(d@.files.take(i as int)),
            forall|j: int| 0 <= j < i ==> file_fits(#[trigger] d@.files[j]),
        decreases d.files@.len() - i,
    {
        encode_file(&d.files[i], out);
        proof {
            let next = d@.files.take(i + 1);
            assert(next.drop_last() =~= d@.files.take(i as int));
            assert(next.last() == d.files@[i as int]@);
            assert(out@ =~= head + ser_files(next));
        }
        i = i + 1;
    }
    assert(d@.files.take(i as int) =~= d@.files);
    put_u64(out, d.subdirs.len() as u64);
    let ghost upper = out@;
    let mut k: usize = 0;
    assert(d@.subdirs.take(0) =~= Seq::<DirView>::empty());
    assert(upper + ser_dirs(d@.subdirs.take(0)) =~= upper);
    while k < d.subdirs.len()
        invariant
            k <= d.subdirs@.len(),
            out@ == upper + ser_dirs(d@.subdirs.take(k as int)),
            forall|j: int| 0 <= j < k ==> dir_fits(#[trigger] d@.subdirs[j]),
        decreases d.subdirs@.len() - k,
    {
        encode_dir(&d.subdirs[k], out);
        proof {
            let next = d@.subdirs.take(k + 1);
            assert(next.drop_last() =~= d@.subdirs.take(k as int));
            assert(next.last() == d.subdirs@[k as int]@);
            assert(out@ =~= upper + ser_dirs(next));
        }
        k = k + 1;
    }
    assert(d@.subdirs.take(k as int) =~= d@.subdirs);
    assert(out@ =~= old(out)@ + ser_dir(d@));
}

// ------------------------------------------------------------ reading

/// The models of a list of trees.
pub open spec fn dir_views(ds: Seq<DirInfo>) -> Seq<DirView> {
    Seq::new(ds.len(), |i: int| ds[i]@)
}

/// Reads the file that stands at `pos`.
pub fn decode_file(buf: &[u8], pos: usize) -> (r: Option<(FileInfo, usize)>)
    requires
        pos <= buf@.len(),
    ensures
        match r {
            Some((f, next)) => parse_file(buf@, pos as int) == Some((f@, (next - pos) as nat))
                && pos <= next <= buf@.len(),
            None => parse_file(buf@, pos as int) is None,
        },
{
    let (path_hash, p1) = match take_text(buf, pos) {
        None => { return None; },
        Some(x) => x,
    };
    let (name, p2) = match take_text(buf, p1) {
        None => { return None; },
        Some(x) => x,
    };
    let (size, p3) = match take_u64(buf, p2) {
        None => { return None; },
        Some(x) => x,
    };
    let (modified, p4) = match take_u64(buf, p3) {
        None => { return None; },
        Some(x) => x,
    };
    let (hash, p5) = match take_text(buf, p4) {
        None => { return None; },
        Some(x) => x,
    };
    Some((FileInfo { path: String::new(), path_hash, name, size, modified, hash }, p5))
}

/// Reads the `count` files that stand at `pos`.
pub fn decode_files(buf: &[u8], pos: usize, count: u64) -> (r: Option<(Vec<FileInfo>, usize)>)
    requires
        pos <= buf@.len(),
    ensures
        match r {
            Some((files, next)) => parse_files(buf@, pos as int, count as nat) == Some(
                (file_views(files@), (next - pos) as nat),
            ) && pos <= next <= buf@.len(),
            None => parse_files(buf@, pos as int, count as nat) is None,
        },
{
    let mut files: Vec<FileInfo> = Vec::new();
    let mut cur: usize = pos;
    let mut i: u64 = 0;
    assert(file_views(files@) =~= Seq::<FileView>::empty());
    while i < count
        invariant
            i <= count,
            pos <= cur <= buf@.len(),
            parse_files(buf@, pos as int, i as nat) == Some(
                (file_views(files@), (cur - pos) as nat),
            ),
        decreases count - i,
    {
        match decode_file(buf, cur) {
            None => {
                proof {
                    lemma_parse_files_stuck(buf@, pos as int, (i + 1) as nat, count as nat);
                }
                return None;
            },
            Some((f, next)) => {
                let ghost before = file_views(files@);
                files.push(f);
                assert(file_views(files@) =~= before.push(f@));
                cur = next;
            },
        }
        i = i + 1;
    }
    Some((files, cur))
}

/// Reads the tree that stands at `pos`.
pub fn decode_dir(buf: &[u8], pos: usize) -> (r: Option<(DirInfo, usize)>)
    requires
        pos <= buf@.len(),
    ensures
        match r {
            Some((d, next)) => parse_dir(buf@, pos as int) == Some((d@, (next - pos) as nat))
                && pos <= next <= buf@.len(),
            None => parse_dir(buf@, pos as int) is None,
        },
    decreases buf@.len() - pos, 0nat,
{
    let (path, p1) = match take_text(buf, pos) {
        None => { return None; },
        Some(x) => x,
    };
    let (file_count, p2) = match take_u64(buf, p1) {
        None => { return None; },
        Some(x) => x,
    };
    let (files, p3) = match decode_files(buf, p2, file_count) {
        None => { return None; },
        Some(x) => x,
    };
    let (dir_count, p4) = match take_u64(buf, p3) {
        None => { return None; },
        Some(x) => x,
    };
    let (subdirs, p5) = match decode_dirs(buf, p4, dir_count) {
        None => { return None; },
        Some(x) => x,
    };
    let r = DirInfo { path, files, subdirs };
    assert(r@.subdirs =~= dir_views(r.subdirs@));
    Some((r, p5))
}

/// Reads the `count` trees that stand at `pos`.
pub fn decode_dirs(buf: &[u8], pos: usize, count: u64) -> (r: Option<(Vec<DirInfo>, usize)>)
    requires
        pos <= buf@.len(),
    ensures
        match r {
            Some((dirs, next)) => parse_dirs(buf@, pos as int, count as nat) == Some(
                (dir_views(dirs@), (next - pos) as nat),
            ) && pos <= next <= buf@.len(),
            None => parse_dirs(buf@, pos as int, count as nat) is None,
        },
    decreases buf@.len() - pos, 1nat,
{
    let mut dirs: Vec<DirInfo> = Vec::new();
    let mut cur: usize = pos;
    let mut k: u64 = 0;
    assert(dir_views(dirs@) =~= Seq::<DirView>::empty());
    while k < count
        invariant
            k <= count,
            pos <= cur <= buf@.len(),
            parse_dirs(buf@, pos as int, k as nat) == Some((dir_views(dirs@), (cur - pos) as nat)),
        decreases count - k,
    {
        match decode_dir(buf, cur) {
            None => {
                proof {
                    lemma_parse_dirs_stuck(buf@, pos as int, (k + 1) as nat, count as nat);
                }
                return None;
            },
            Some((d, next)) => {
                let ghost before = dir_views(dirs@);
                dirs.push(d);
                assert(dir_views(dirs@) =~= before.push(d@));
                cur = next;
            },
        }
        k = k + 1;
    }
    Some((dirs, cur))
}

} // verus!
