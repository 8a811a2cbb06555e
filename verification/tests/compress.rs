use dirsync::compress::{compress_bytes, decompress_bytes};
use std::io::{Read, Write};

#[test]
fn compressed_content_is_restored() {
    let inputs: Vec<Vec<u8>> = vec![
        vec![],
        b"hi".to_vec(),
        vec![0u8; 100_000],
        (0..50_000u32).map(|i| (i * 7919 % 256) as u8).collect(),
    ];
    for input in inputs {
        let packed = compress_bytes(&input).unwrap();
        assert_eq!(decompress_bytes(&packed), Some(input));
    }
}

#[test]
fn compression_changes_the_bytes() {
    let input = vec![b'a'; 10_000];
    let packed = compress_bytes(&input).unwrap();
    assert_ne!(packed, input);
    assert!(packed.len() < 200);
    let small = b"hi".to_vec();
    assert_ne!(compress_bytes(&small).unwrap(), small);
}

#[test]
fn compression_is_raw_deflate_at_the_default_level() {
    let input: Vec<u8> = (0..5_000u32).map(|i| (i % 97) as u8).collect();
    let mut encoder =
        flate2::write::DeflateEncoder::new(Vec::new(), flate2::Compression::default());
    encoder.write_all(&input).unwrap();
    assert_eq!(compress_bytes(&input).unwrap(), encoder.finish().unwrap());
    let packed = compress_bytes(&input).unwrap();
    let mut out = Vec::new();
    flate2::read::DeflateDecoder::new(packed.as_slice()).read_to_end(&mut out).unwrap();
    assert_eq!(out, input);
}

#[test]
fn a_corrupt_stream_is_refused() {
    assert_eq!(decompress_bytes(&[0xff, 0xff, 0xff, 0xff]), None);
    let packed = compress_bytes(&vec![7u8; 4096]).unwrap();
    assert_eq!(decompress_bytes(&packed[..packed.len() / 2]), None);
    assert_eq!(decompress_bytes(&[]), None);
}

#[test]
fn compression_is_repeatable() {
    let input: Vec<u8> = (0..20_000u32).map(|i| (i * 31 % 256) as u8).collect();
    assert_eq!(compress_bytes(&input), compress_bytes(&input));
}
