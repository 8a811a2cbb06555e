use dirsync::fileinfo::{DirInfo, FileInfo};
use dirsync::hashing::{content_hash, path_hash};
use dirsync::index::FileIndex;
use dirsync::paths::{join_path, relative_to};

fn leaf(dir: &str, name: &str, content: &[u8]) -> FileInfo {
    FileInfo::new(&join_path(dir, name), name, content.len() as u64, 42, content)
}

/// A scan of `/srv/data`: `a.txt`, `b.bin`, `sub/c.txt`, `sub/deep/d.txt` and
/// the empty directory `void`.
fn scan(root: &str) -> DirInfo {
    let sub = join_path(root, "sub");
    let deep = join_path(&sub, "deep");
    DirInfo {
        path: root.to_string(),
        files: vec![leaf(root, "a.txt", b"hi"), leaf(root, "b.bin", &[0, 1, 2, 3])],
        subdirs: vec![
            DirInfo {
                path: sub.clone(),
                files: vec![leaf(&sub, "c.txt", b"see")],
                subdirs: vec![DirInfo {
                    path: deep.clone(),
                    files: vec![leaf(&deep, "d.txt", b"")],
                    subdirs: vec![],
                }],
            },
            DirInfo { path: join_path(root, "void"), files: vec![], subdirs: vec![] },
        ],
    }
}

fn stripped(root: &str) -> DirInfo {
    let mut tree = scan(root);
    tree.strip_root();
    tree
}

fn names(files: &[&FileInfo]) -> Vec<String> {
    files.iter().map(|f| f.name.clone()).collect()
}

#[test]
fn a_new_file_is_described_from_what_was_read() {
    let f = FileInfo::new("/srv/data/a.txt", "a.txt", 2, 1_700_000_000, b"hi");
    assert_eq!(f.path, "/srv/data/a.txt");
    assert_eq!(f.path_hash, "");
    assert_eq!(f.name, "a.txt");
    assert_eq!(f.size, 2);
    assert_eq!(f.modified, 1_700_000_000);
    assert_eq!(f.hash, content_hash(b"hi"));
}

#[test]
fn joining_paths() {
    assert_eq!(join_path("/srv", "a.txt"), "/srv/a.txt");
    assert_eq!(join_path("/srv/", "a.txt"), "/srv/a.txt");
    assert_eq!(join_path("C:\\srv\\", "a.txt"), "C:\\srv\\a.txt");
    assert_eq!(join_path("C:\\srv", "sub\\a.txt"), "C:\\srv/sub\\a.txt");
    assert_eq!(join_path("", "a.txt"), "a.txt");
    assert_eq!(join_path("/srv", ""), "/srv");
    assert_eq!(join_path("", ""), "");
    assert_eq!(join_path("/süd", "ä"), "/süd/ä");
}

#[test]
fn paths_relative_to_a_root() {
    assert_eq!(relative_to("/srv/data/a.txt", "/srv/data"), Some("a.txt".to_string()));
    assert_eq!(relative_to("/srv/data/a.txt", "/srv/data/"), Some("a.txt".to_string()));
    assert_eq!(relative_to("/srv/data", "/srv/data"), Some("".to_string()));
    assert_eq!(relative_to("C:\\srv\\sub\\a.txt", "C:\\srv"), Some("sub\\a.txt".to_string()));
    assert_eq!(relative_to("/srv/database/a.txt", "/srv/data"), None);
    assert_eq!(relative_to("/srv", "/srv/data"), None);
    assert_eq!(relative_to("/other/a.txt", "/srv"), None);
    assert_eq!(relative_to("a/b", ""), Some("a/b".to_string()));
    assert_eq!(relative_to("/süd/ä/b", "/süd/ä"), Some("b".to_string()));
    assert_eq!(relative_to(&join_path("/srv", "sub/a.txt"), "/srv"), Some("sub/a.txt".to_string()));
}

#[test]
fn a_scan_is_rooted_at_its_own_path() {
    assert!(scan("/srv/data").is_rooted());
    assert!(scan("/srv/data").is_rooted_at("/srv"));
    assert!(!scan("/srv/data").is_rooted_at("/srv/other"));
    let mut stray = scan("/srv/data");
    stray.subdirs[0].files[0].path = "/elsewhere/c.txt".to_string();
    assert!(!stray.is_rooted());
    let mut stray = scan("/srv/data");
    stray.subdirs[0].subdirs[0].path = "/srv/datax/sub/deep".to_string();
    assert!(!stray.is_rooted());
}

#[test]
fn stripping_the_root_makes_paths_relative_and_names_the_files() {
    let tree = stripped("/srv/data");
    assert_eq!(tree.path, "");
    assert_eq!(tree.files[0].path, "a.txt");
    assert_eq!(tree.files[0].path_hash, path_hash("a.txt"));
    assert_eq!(tree.files[1].path, "b.bin");
    assert_eq!(tree.subdirs[0].path, "sub");
    assert_eq!(tree.subdirs[0].files[0].path, "sub/c.txt");
    assert_eq!(tree.subdirs[0].files[0].path_hash, path_hash("sub/c.txt"));
    assert_eq!(tree.subdirs[0].subdirs[0].path, "sub/deep");
    assert_eq!(tree.subdirs[0].subdirs[0].files[0].path, "sub/deep/d.txt");
    assert_eq!(tree.subdirs[0].subdirs[0].files[0].path_hash, path_hash("sub/deep/d.txt"));
    assert_eq!(tree.subdirs[1].path, "void");
    // nothing else changes
    assert_eq!(tree.files[0].name, "a.txt");
    assert_eq!(tree.files[0].size, 2);
    assert_eq!(tree.files[0].modified, 42);
    assert_eq!(tree.files[0].hash, content_hash(b"hi"));
}

#[test]
fn identifiers_do_not_depend_on_the_root_or_the_separator() {
    let here = stripped("/srv/data");
    let there = stripped("/home/user/mirror/");
    assert_eq!(here.files[0].path_hash, there.files[0].path_hash);
    assert_eq!(here.subdirs[0].files[0].path_hash, there.subdirs[0].files[0].path_hash);
    let mut windows = DirInfo {
        path: "C:\\data".to_string(),
        files: vec![],
        subdirs: vec![DirInfo {
            path: "C:\\data\\sub".to_string(),
            files: vec![FileInfo::new("C:\\data\\sub\\c.txt", "c.txt", 3, 0, b"see")],
            subdirs: vec![],
        }],
    };
    windows.strip_root();
    assert_eq!(windows.subdirs[0].files[0].path, "sub\\c.txt");
    assert_eq!(windows.subdirs[0].files[0].path_hash, here.subdirs[0].files[0].path_hash);
}

#[test]
fn received_files_are_placed_below_the_local_root() {
    let mut tree = stripped("/srv/data");
    let ids_before: Vec<String> =
        tree.flat_hashes().entries().iter().map(|f| f.path_hash.clone()).collect();
    tree.set_all_file_paths("/home/me/copy");
    assert_eq!(tree.files[0].path, "/home/me/copy/a.txt");
    assert_eq!(tree.files[1].path, "/home/me/copy/b.bin");
    assert_eq!(tree.subdirs[0].files[0].path, "/home/me/copy/sub/c.txt");
    assert_eq!(tree.subdirs[0].subdirs[0].files[0].path, "/home/me/copy/sub/deep/d.txt");
    assert_eq!(tree.path, "");
    assert_eq!(tree.subdirs[0].path, "sub");
    let ids_after: Vec<String> =
        tree.flat_hashes().entries().iter().map(|f| f.path_hash.clone()).collect();
    assert_eq!(ids_before, ids_after);
    // taking the new root off again gives the relative paths back
    let mut again = tree.clone();
    again.strip_below("/home/me/copy");
    assert_eq!(again.files[0].path, "a.txt");
    assert_eq!(again.subdirs[0].subdirs[0].files[0].path, "sub/deep/d.txt");
    assert_eq!(again.subdirs[0].subdirs[0].files[0].path_hash, path_hash("sub/deep/d.txt"));
}

#[test]
fn flattening_collects_every_file_in_the_order_of_the_walk() {
    let tree = stripped("/srv/data");
    let index = tree.flat_hashes();
    assert_eq!(index.len(), 4);
    assert_eq!(names(&index.entries()), vec!["a.txt", "b.bin", "c.txt", "d.txt"]);
    assert_eq!(index.entry(2).path, "sub/c.txt");
    assert_eq!(index.get(&path_hash("sub/deep/d.txt")).unwrap().name, "d.txt");
    assert_eq!(index.find(&path_hash("b.bin")), Some(1));
    assert!(index.get("no such identifier").is_none());
    assert_eq!(index.find(""), None);
    let empty = DirInfo { path: "".to_string(), files: vec![], subdirs: vec![] };
    assert_eq!(empty.flat_hashes().len(), 0);
}

#[test]
fn of_two_files_with_one_identifier_the_later_is_kept() {
    let mut tree = stripped("/srv/data");
    let id = tree.files[0].path_hash.clone();
    tree.subdirs[0].subdirs[0].files[0].path_hash = id.clone();
    let index = tree.flat_hashes();
    assert_eq!(index.len(), 3);
    assert_eq!(index.get(&id).unwrap().name, "d.txt");
    assert_eq!(names(&index.entries()), vec!["d.txt", "b.bin", "c.txt"]);
    let mut by_hand = FileIndex::new();
    by_hand.insert(&tree.files[1]);
    by_hand.insert(&tree.files[0]);
    by_hand.insert(&tree.subdirs[0].subdirs[0].files[0]);
    assert_eq!(names(&by_hand.entries()), vec!["b.bin", "d.txt"]);
}

#[test]
fn equal_trees_have_an_empty_diff() {
    let base = stripped("/srv/data");
    let local = stripped("/home/me/copy");
    assert!(local.diff_with(&base).is_empty());
    assert!(base.diff_with(&base).is_empty());
    let empty = DirInfo { path: "".to_string(), files: vec![], subdirs: vec![] };
    assert!(base.diff_with(&empty).is_empty());
    assert!(empty.diff_with(&empty).is_empty());
}

#[test]
fn a_missing_file_is_the_whole_diff() {
    let base = stripped("/srv/data");
    let mut local = stripped("/home/me/copy");
    local.subdirs[0].files.remove(0);
    let diff = local.diff_with(&base);
    assert_eq!(diff.len(), 1);
    assert_eq!(diff[0], &base.subdirs[0].files[0]);
}

#[test]
fn a_changed_file_is_the_whole_diff() {
    let base = stripped("/srv/data");
    let mut local = stripped("/home/me/copy");
    local.files[1].hash = content_hash(b"something else");
    let diff = local.diff_with(&base);
    assert_eq!(diff.len(), 1);
    assert_eq!(diff[0].name, "b.bin");
    assert_eq!(diff[0].hash, content_hash(&[0, 1, 2, 3]));
    // size and time alone do not matter
    let mut local = stripped("/home/me/copy");
    local.files[1].size = 99;
    local.files[1].modified = 1;
    assert!(local.diff_with(&base).is_empty());
}

#[test]
fn files_that_only_the_local_side_has_are_left_alone() {
    let base = stripped("/srv/data");
    let mut local = stripped("/home/me/copy");
    let mut extra = FileInfo::new("extra.txt", "extra.txt", 5, 0, b"extra");
    extra.path_hash = path_hash("extra.txt");
    local.files.push(extra);
    assert!(local.diff_with(&base).is_empty());
    // and the other way round the file is wanted
    let wanted = base.diff_with(&local);
    assert_eq!(names(&wanted), vec!["extra.txt"]);
}

#[test]
fn an_empty_local_tree_needs_everything() {
    let base = stripped("/srv/data");
    let empty = DirInfo { path: "".to_string(), files: vec![], subdirs: vec![] };
    let diff = empty.diff_with(&base);
    assert_eq!(names(&diff), vec!["a.txt", "b.bin", "c.txt", "d.txt"]);
}

#[test]
fn a_file_moved_to_another_directory_is_another_file() {
    let base = stripped("/srv/data");
    let mut local = stripped("/home/me/copy");
    let moved = local.subdirs[0].files.remove(0);
    local.files.push(FileInfo { path_hash: path_hash("c.txt"), path: "c.txt".to_string(), ..moved });
    assert_eq!(names(&local.diff_with(&base)), vec!["c.txt"]);
    assert_eq!(local.diff_with(&base)[0].path, "sub/c.txt");
}

#[test]
fn a_tree_is_cloned_whole() {
    let tree = stripped("/srv/data");
    assert_eq!(tree.clone(), tree);
    assert_eq!(tree.files[0].clone(), tree.files[0]);
}

#[test]
fn a_directory_is_described_from_what_a_walk_found() {
    let inner = DirInfo::new("/srv/data/sub", vec![leaf("/srv/data/sub", "c.txt", b"see")], vec![]);
    let outer = DirInfo::new("/srv/data", vec![leaf("/srv/data", "a.txt", b"hi")], vec![inner]);
    assert_eq!(outer.path, "/srv/data");
    assert_eq!(outer.files.len(), 1);
    assert_eq!(outer.files[0].name, "a.txt");
    assert_eq!(outer.subdirs.len(), 1);
    assert_eq!(outer.subdirs[0].path, "/srv/data/sub");
    assert_eq!(outer.subdirs[0].files[0].path, "/srv/data/sub/c.txt");
    assert!(outer.is_rooted());
    let empty = DirInfo::new("", vec![], vec![]);
    assert_eq!(empty, DirInfo { path: String::new(), files: vec![], subdirs: vec![] });
}

#[test]
fn fetching_the_diff_leaves_nothing_to_fetch() {
    let base = stripped("/srv/data");
    let mut local = stripped("/home/me/copy");
    local.files.remove(0);
    local.subdirs[0].subdirs[0].files[0].hash = content_hash(b"stale");
    let mut mine = FileInfo::new("mine.txt", "mine.txt", 4, 0, b"mine");
    mine.path_hash = path_hash("mine.txt");
    local.files.push(mine.clone());
    let wanted: Vec<FileInfo> = local.diff_with(&base).into_iter().cloned().collect();
    assert_eq!(wanted.len(), 2);
    // what was fetched takes the place of what was there under its identifier
    for f in wanted {
        let id = f.path_hash.clone();
        local.subdirs[0].subdirs[0].files.retain(|old| old.path_hash != id);
        local.files.push(f);
    }
    assert!(local.diff_with(&base).is_empty());
    assert_eq!(local.flat_hashes().get(&mine.path_hash), Some(&mine));
}
