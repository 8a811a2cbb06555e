//! The hash model: a fast 64-bit hash (the standard library's default
//! hasher, started afresh) written in lower-case hexadecimal. Content is
//! hashed as a stream of fixed-size chunks; a path is hashed in its
//! forward-slash form.

use crate::text::{hex, to_hex};
use std::collections::hash_map::DefaultHasher;
use std::hash::Hasher;
use vstd::prelude::*;
use vstd::slice::*;
use vstd::std_specs::hash::*;
use vstd::utf8::*;

verus! {

/// The number of bytes handed to the hasher at a time when content is
/// hashed.
pub const CHUNK_SIZE: usize = 1024;

/// What a fresh default hasher returns after the given writes.
pub open spec fn digest(writes: Seq<Seq<u8>>) -> u64 {
    DefaultHasher::spec_finish(writes)
}

/// The hash of `bytes` written in one piece.
pub open spec fn hash_of(bytes: Seq<u8>) -> Seq<char> {
    hex(digest(seq![bytes]) as nat)
}

/// `bytes` cut into pieces of `size` bytes; the last piece holds what is
/// left. Nothing gives no piece.
pub open spec fn chunks(bytes: Seq<u8>, size: nat) -> Seq<Seq<u8>>
    decreases bytes.len(),
{
    if bytes.len() == 0 || size == 0 {
        Seq::empty()
    } else if bytes.len() <= size {
        seq![bytes]
    } else {
        seq![bytes.take(size as int)] + chunks(bytes.skip(size as int), size)
    }
}

/// The hash of `bytes` written chunk by chunk.
pub open spec fn content_hash_of(bytes: Seq<u8>) -> Seq<char> {
    hex(digest(chunks(bytes, CHUNK_SIZE as nat)) as nat)
}

/// `c`, or a forward slash where `c` is a backslash.
pub open spec fn forward(c: char) -> char {
    if c == '\\' {
        '/'
    } else {
        c
    }
}

/// The forward-slash form of a path: every backslash is turned into a
/// forward slash.
pub open spec fn forward_slashes(path: Seq<char>) -> Seq<char> {
    path.map_values(|c: char| forward(c))
}

/// The identifier of the file at relative path `path`: the hash of the
/// UTF-8 bytes of the path's forward-slash form.
pub open spec fn path_hash_of(path: Seq<char>) -> Seq<char> {
    hash_of(encode_utf8(forward_slashes(path)))
}

/// `bytes` with every backslash byte turned into a forward-slash byte.
pub open spec fn slashed(bytes: Seq<u8>) -> Seq<u8> {
    bytes.map_values(|b: u8| if b == 0x5c { 0x2fu8 } else { b })
}

/// The bytes of a character other than the backslash hold no backslash
/// byte, and the backslash is the one byte `0x5c`.
proof fn lemma_slashed_scalar(c: char)
    ensures
        slashed(encode_scalar(c as u32)) == encode_scalar(forward(c) as u32),
{
    let v = c as u32;
    char_is_scalar(c);
    if c == '\\' {
        assert(v == 0x5c);
        assert((0x5cu32 & 0x7f) as u8 == 0x5c) by (bit_vector);
        assert((0x2fu32 & 0x7f) as u8 == 0x2f) by (bit_vector);
        assert(slashed(encode_scalar(v)) =~= encode_scalar(0x2f));
    } else {
        assert(v != 0x5c);
        assert(v <= 0x7f ==> (v & 0x7f) as u8 != 0x5c) by (bit_vector)
            requires
                v != 0x5c,
        ;
        assert((0xc0 | ((v >> 6) & 0x1f) as u8) != 0x5c) by (bit_vector);
        assert((0xe0 | ((v >> 12) & 0x0f) as u8) != 0x5c) by (bit_vector);
        assert((0xf0 | ((v >> 18) & 0x7) as u8) != 0x5c) by (bit_vector);
        assert((0x80 | (v & 0x3f) as u8) != 0x5c) by (bit_vector);
        assert((0x80 | ((v >> 6) & 0x3f) as u8) != 0x5c) by (bit_vector);
        assert((0x80 | ((v >> 12) & 0x3f) as u8) != 0x5c) by (bit_vector);
        assert(slashed(encode_scalar(v)) =~= encode_scalar(v));
    }
}

/// Turning the backslash bytes of a text's UTF-8 encoding into forward
/// slashes gives the encoding of the text's forward-slash form.
pub proof fn lemma_slashed_text(path: Seq<char>)
    ensures
        slashed(encode_utf8(path)) == encode_utf8(forward_slashes(path)),
    decreases path.len(),
{
    if path.len() == 0 {
        assert(slashed(encode_utf8(path)) =~= encode_utf8(forward_slashes(path)));
    } else {
        let rest = path.drop_first();
        lemma_slashed_scalar(path[0]);
        lemma_slashed_text(rest);
        assert(forward_slashes(path).drop_first() =~= forward_slashes(rest));
        assert(slashed(encode_scalar(path[0] as u32) + encode_utf8(rest)) =~= slashed(
            encode_scalar(path[0] as u32),
        ) + slashed(encode_utf8(rest)));
    }
}

/// Hashes `s` in one piece.
pub fn get_hash(s: &[u8]) -> (r: String)
    ensures
        r@ == hash_of(s@),
{
    let mut hasher = DefaultHasher::new();
    hasher.write(s);
    assert(hasher@ =~= seq![s@]);
    to_hex(hasher.finish())
}

/// Hashes `content` as a stream of chunks of `CHUNK_SIZE` bytes.
pub fn content_hash(content: &[u8]) -> (r: String)
    ensures
        r@ == content_hash_of(content@),
{
    let mut hasher = DefaultHasher::new();
    let mut pos: usize = 0;
    assert(content@.skip(0) =~= content@);
    while pos < content.len()
        invariant
            pos <= content@.len(),
            hasher@ + chunks(content@.skip(pos as int), CHUNK_SIZE as nat) == chunks(
                content@,
                CHUNK_SIZE as nat,
            ),
        decreases content@.len() - pos,
    {
        let left: usize = content.len() - pos;
        let end: usize = if left <= CHUNK_SIZE { content.len() } else { pos + CHUNK_SIZE };
        let piece = slice_subrange(content, pos, end);
        proof {
            let rest = content@.skip(pos as int);
            if left <= CHUNK_SIZE {
                assert(piece@ =~= rest);
                assert(content@.skip(end as int).len() == 0);
                assert(hasher@.push(piece@) + chunks(content@.skip(end as int), CHUNK_SIZE as nat)
                    =~= hasher@ + chunks(rest, CHUNK_SIZE as nat));
            } else {
                assert(piece@ =~= rest.take(CHUNK_SIZE as int));
                assert(content@.skip(end as int) =~= rest.skip(CHUNK_SIZE as int));
                assert(hasher@.push(piece@) + chunks(content@.skip(end as int), CHUNK_SIZE as nat)
                    =~= hasher@ + chunks(rest, CHUNK_SIZE as nat));
            }
        }
        hasher.write(piece);
        pos = end;
    }
    assert(hasher@ =~= chunks(content@, CHUNK_SIZE as nat));
    to_hex(hasher.finish())
}

/// Hashes the forward-slash form of the relative path `path`.
pub fn path_hash(path: &str) -> (r: String)
    ensures
        r@ == path_hash_of(path@),
{
    let raw = path.as_bytes();
    let mut norm: Vec<u8> = Vec::new();
    let mut i: usize = 0;
    while i < raw.len()
        invariant
            i <= raw@.len(),
            norm@ == slashed(raw@).take(i as int),
        decreases raw@.len() - i,
    {
        let b: u8 = raw[i];
        norm.push(if b == 0x5c { 0x2fu8 } else { b });
        assert(norm@ =~= slashed(raw@).take(i + 1));
        i = i + 1;
    }
    assert(norm@ =~= slashed(raw@));
    proof {
        lemma_slashed_text(path@);
    }
    get_hash(norm.as_slice())
}

/// A path written with `sep` between its parts.
pub open spec fn written_with(parts: Seq<Seq<char>>, sep: char) -> Seq<char>
    decreases parts.len(),
{
    if parts.len() == 0 {
        Seq::empty()
    } else if parts.len() == 1 {
        parts[0]
    } else {
        written_with(parts.drop_last(), sep) + seq![sep] + parts.last()
    }
}

proof fn lemma_forward_slashes_of_written(parts: Seq<Seq<char>>)
    ensures
        forward_slashes(written_with(parts, '\\')) == forward_slashes(written_with(parts, '/')),
    decreases parts.len(),
{
    if parts.len() > 1 {
        lemma_forward_slashes_of_written(parts.drop_last());
        let a = written_with(parts.drop_last(), '\\');
        let b = written_with(parts.drop_last(), '/');
        assert(forward_slashes(a + seq!['\\'] + parts.last()) =~= forward_slashes(a) + seq!['/']
            + forward_slashes(parts.last()));
        assert(forward_slashes(b + seq!['/'] + parts.last()) =~= forward_slashes(b) + seq!['/']
            + forward_slashes(parts.last()));
    }
}

/// Two relative paths with the same forward-slash form have the same
/// identifier.
pub proof fn law_path_hash_of_forward_form(p: Seq<char>, q: Seq<char>)
    requires
        forward_slashes(p) == forward_slashes(q),
    ensures
        path_hash_of(p) == path_hash_of(q),
{
}

/// A relative path has the same identifier whether its parts are written
/// with backslashes between them or with forward slashes.
pub proof fn law_path_hash_ignores_separator(parts: Seq<Seq<char>>)
    ensures
        path_hash_of(written_with(parts, '\\')) == path_hash_of(written_with(parts, '/')),
{
    lemma_forward_slashes_of_written(parts);
}

} // verus!
