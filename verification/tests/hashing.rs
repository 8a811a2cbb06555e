use dirsync::hashing::{content_hash, get_hash, path_hash, CHUNK_SIZE};
use dirsync::text::{to_decimal, to_hex};
use std::collections::hash_map::DefaultHasher;
use std::collections::HashSet;
use std::hash::Hasher;

fn reference(writes: &[&[u8]]) -> String {
    let mut hasher = DefaultHasher::new();
    for w in writes {
        hasher.write(w);
    }
    format!("{:x}", hasher.finish())
}

#[test]
fn hash_is_the_default_hasher_in_hex() {
    assert_eq!(get_hash(b""), reference(&[b""]));
    assert_eq!(get_hash(b"a.txt"), reference(&[b"a.txt"]));
    let long: Vec<u8> = (0..5000u32).map(|i| i as u8).collect();
    assert_eq!(get_hash(&long), reference(&[&long]));
    assert_ne!(get_hash(b"a"), get_hash(b"b"));
}

#[test]
fn hex_and_decimal_digits() {
    assert_eq!(to_hex(0), "0");
    assert_eq!(to_hex(9), "9");
    assert_eq!(to_hex(10), "a");
    assert_eq!(to_hex(255), "ff");
    assert_eq!(to_hex(0x1234_abcd), "1234abcd");
    assert_eq!(to_hex(u64::MAX), "ffffffffffffffff");
    assert_eq!(to_hex(0x0fed_cba9_8765_4321), "fedcba987654321");
    assert_eq!(to_decimal(0), "0");
    assert_eq!(to_decimal(10), "10");
    assert_eq!(to_decimal(1_700_000_000_123), "1700000000123");
    assert_eq!(to_decimal(u128::MAX), "340282366920938463463374607431768211455");
}

#[test]
fn content_is_hashed_in_chunks() {
    assert_eq!(CHUNK_SIZE, 1024);
    assert_eq!(content_hash(b""), reference(&[]));
    assert_eq!(content_hash(b"hi"), reference(&[b"hi"]));
    let exact = vec![5u8; 1024];
    assert_eq!(content_hash(&exact), reference(&[&exact]));
    let data: Vec<u8> = (0..2500u32).map(|i| (i % 253) as u8).collect();
    assert_eq!(content_hash(&data), reference(&[&data[..1024], &data[1024..2048], &data[2048..]]));
    let two = vec![9u8; 2048];
    assert_eq!(content_hash(&two), reference(&[&two[..1024], &two[1024..]]));
    assert_ne!(content_hash(b"hi"), content_hash(b"ho"));
}

#[test]
fn path_hash_ignores_the_separator() {
    assert_eq!(path_hash("sub\\dir\\a.txt"), path_hash("sub/dir/a.txt"));
    assert_eq!(path_hash("sub\\dir/a.txt"), path_hash("sub/dir\\a.txt"));
    assert_eq!(path_hash("sub/dir/a.txt"), get_hash(b"sub/dir/a.txt"));
    assert_eq!(path_hash("a.txt"), get_hash(b"a.txt"));
    assert_eq!(path_hash("dir\\ü.txt"), get_hash("dir/ü.txt".as_bytes()));
    assert_eq!(path_hash(""), get_hash(b""));
    assert_ne!(path_hash("a/b"), path_hash("a_b"));
}

#[test]
fn thousands_of_paths_do_not_collide() {
    let mut seen = HashSet::new();
    for d in 0..60 {
        for f in 0..60 {
            assert!(seen.insert(path_hash(&format!("dir{}/sub/file{}.dat", d, f))));
        }
    }
    assert_eq!(seen.len(), 3600);
}
