//! Primitive encodings of the wire format: little-endian fixed-width
//! integers, one-byte booleans, and length-prefixed byte strings and UTF-8
//! text. Every parser is a spec function from a buffer and a position to the
//! value found there and the number of bytes it occupies.

use vstd::prelude::*;
use vstd::slice::*;
use vstd::utf8::*;

verus! {

/// `part` is the content of `s` from position `pos` on.
pub open spec fn holds_at(s: Seq<u8>, pos: int, part: Seq<u8>) -> bool {
    &&& 0 <= pos
    &&& pos + part.len() <= s.len()
    &&& s.subrange(pos, pos + part.len()) == part
}

/// A concatenation is found at a position exactly when its two halves are
/// found one after the other.
pub proof fn lemma_holds_at_concat(s: Seq<u8>, pos: int, a: Seq<u8>, b: Seq<u8>)
    ensures
        holds_at(s, pos, a + b) <==> holds_at(s, pos, a) && holds_at(s, pos + a.len(), b),
{
    if holds_at(s, pos, a + b) {
        assert(s.subrange(pos, pos + a.len()) =~= (a + b).subrange(0, a.len() as int));
        assert((a + b).subrange(0, a.len() as int) =~= a);
        assert(s.subrange(pos + a.len(), pos + a.len() + b.len()) =~= (a + b).subrange(
            a.len() as int,
            (a + b).len() as int,
        ));
        assert((a + b).subrange(a.len() as int, (a + b).len() as int) =~= b);
    }
    if holds_at(s, pos, a) && holds_at(s, pos + a.len(), b) {
        assert(s.subrange(pos, pos + (a + b).len()) =~= s.subrange(pos, pos + a.len())
            + s.subrange(pos + a.len(), pos + a.len() + b.len()));
    }
}

/// Every buffer holds itself at position 0, whatever follows it.
pub proof fn lemma_holds_at_start(part: Seq<u8>, tail: Seq<u8>)
    ensures
        holds_at(part + tail, 0, part),
{
    assert((part + tail).subrange(0, part.len() as int) =~= part);
}

// ---------------------------------------------------------------- u32

/// The four bytes of `x`, least significant first.
#[verifier::opaque]
pub open spec fn u32_le(x: u32) -> Seq<u8> {
    seq![
        (x % 0x100) as u8,
        (x / 0x100 % 0x100) as u8,
        (x / 0x1_0000 % 0x100) as u8,
        (x / 0x100_0000 % 0x100) as u8,
    ]
}

/// The number whose little-endian bytes stand at `pos`.
#[verifier::opaque]
pub open spec fn u32_at(s: Seq<u8>, pos: int) -> u32 {
    (s[pos] as int + s[pos + 1] as int * 0x100 + s[pos + 2] as int * 0x1_0000 + s[pos + 3] as int
        * 0x100_0000) as u32
}

/// The `u32` that stands at `pos`; `None` where fewer than four bytes are
/// left.
pub open spec fn parse_u32(s: Seq<u8>, pos: int) -> Option<(u32, nat)> {
    if 0 <= pos && pos + 4 <= s.len() {
        Some((u32_at(s, pos), 4nat))
    } else {
        None
    }
}

/// Where the bytes of `x` stand at a position, `x` is read there.
pub proof fn lemma_parse_u32(s: Seq<u8>, pos: int, x: u32)
    requires
        holds_at(s, pos, u32_le(x)),
    ensures
        parse_u32(s, pos) == Some((x, 4nat)),
        u32_le(x).len() == 4,
{
    reveal(u32_le);
    reveal(u32_at);
    let part = s.subrange(pos, pos + 4);
    assert(part[0] == s[pos] && part[1] == s[pos + 1] && part[2] == s[pos + 2] && part[3] == s[pos
        + 3]);
}

/// The number read at a position is written as the four bytes that stand
/// there.
pub proof fn lemma_parsed_u32(s: Seq<u8>, pos: int)
    requires
        parse_u32(s, pos) is Some,
    ensures
        holds_at(s, pos, u32_le(parse_u32(s, pos).unwrap().0)),
        parse_u32(s, pos).unwrap().1 == 4,
        u32_le(parse_u32(s, pos).unwrap().0).len() == 4,
{
    reveal(u32_le);
    reveal(u32_at);
    let b0 = s[pos] as int;
    let b1 = s[pos + 1] as int;
    let b2 = s[pos + 2] as int;
    let b3 = s[pos + 3] as int;
    let x = b0 + b1 * 0x100 + b2 * 0x1_0000 + b3 * 0x100_0000;
    assert(x % 0x100 == b0);
    assert(x / 0x100 == b1 + b2 * 0x100 + b3 * 0x1_0000);
    assert(x / 0x1_0000 == b2 + b3 * 0x100);
    assert(x / 0x100_0000 == b3);
    assert(s.subrange(pos, pos + 4) =~= u32_le(x as u32));
}

/// Appends the bytes of `x` to `out`.
pub fn put_u32(out: &mut Vec<u8>, x: u32)
    ensures
        final(out)@ == old(out)@ + u32_le(x),
{
    out.push((x % 0x100) as u8);
    out.push((x / 0x100 % 0x100) as u8);
    out.push((x / 0x1_0000 % 0x100) as u8);
    out.push((x / 0x100_0000 % 0x100) as u8);
    proof {
        reveal(u32_le);
    }
    assert(out@ =~= old(out)@ + u32_le(x));
}

/// Reads the `u32` that stands at `pos`, and says where it ends.
pub fn take_u32(buf: &[u8], pos: usize) -> (r: Option<(u32, usize)>)
    requires
        pos <= buf@.len(),
    ensures
        match r {
            Some((x, next)) => parse_u32(buf@, pos as int) == Some((x, (next - pos) as nat))
                && next == pos + 4 && next <= buf@.len(),
            None => parse_u32(buf@, pos as int) is None,
        },
{
    if buf.len() - pos < 4 {
        return None;
    }
    proof {
        reveal(u32_at);
    }
    let b0: u32 = buf[pos] as u32;
    let b1: u32 = buf[pos + 1] as u32;
    let b2: u32 = buf[pos + 2] as u32;
    let b3: u32 = buf[pos + 3] as u32;
    Some((b0 + b1 * 0x100 + b2 * 0x1_0000 + b3 * 0x100_0000, pos + 4))
}

// ---------------------------------------------------------------- u64

/// The eight bytes of `x`, least significant first.
#[verifier::opaque]
pub open spec fn u64_le(x: u64) -> Seq<u8> {
    seq![
        (x % 0x100) as u8,
        (x / 0x100 % 0x100) as u8,
        (x / 0x1_0000 % 0x100) as u8,
        (x / 0x100_0000 % 0x100) as u8,
        (x / 0x1_0000_0000 % 0x100) as u8,
        (x / 0x100_0000_0000 % 0x100) as u8,
        (x / 0x1_0000_0000_0000 % 0x100) as u8,
        (x / 0x100_0000_0000_0000 % 0x100) as u8,
    ]
}

/// The number whose little-endian bytes stand at `pos`.
#[verifier::opaque]
pub open spec fn u64_at(s: Seq<u8>, pos: int) -> u64 {
    (s[pos] as int + s[pos + 1] as int * 0x100 + s[pos + 2] as int * 0x1_0000 + s[pos + 3] as int
        * 0x100_0000 + s[pos + 4] as int * 0x1_0000_0000 + s[pos + 5] as int * 0x100_0000_0000
        + s[pos + 6] as int * 0x1_0000_0000_0000 + s[pos + 7] as int * 0x100_0000_0000_0000) as u64
}

/// The `u64` that stands at `pos`; `None` where fewer than eight bytes are
/// left.
pub open spec fn parse_u64(s: Seq<u8>, pos: int) -> Option<(u64, nat)> {
    if 0 <= pos && pos + 8 <= s.len() {
        Some((u64_at(s, pos), 8nat))
    } else {
        None
    }
}

/// Reading back the eight little-endian bytes of `x` gives `x`.
pub proof fn lemma_u64_le_value(x: u64)
    ensures
        u64_at(u64_le(x), 0) == x,
        u64_le(x).len() == 8,
{
    reveal(u64_le);
    reveal(u64_at);
    let r1 = x as int / 0x100;
    let r2 = r1 / 0x100;
    let r3 = r2 / 0x100;
    let r4 = r3 / 0x100;
    let r5 = r4 / 0x100;
    let r6 = r5 / 0x100;
    let r7 = r6 / 0x100;
    assert(r2 == x as int / 0x1_0000);
    assert(r3 == x as int / 0x100_0000);
    assert(r4 == x as int / 0x1_0000_0000);
    assert(r5 == x as int / 0x100_0000_0000);
    assert(r6 == x as int / 0x1_0000_0000_0000);
    assert(r7 == x as int / 0x100_0000_0000_0000);
    assert(r7 < 0x100);
    assert(x as int == x as int % 0x100 + r1 * 0x100);
    assert(r1 == r1 % 0x100 + r2 * 0x100);
    assert(r2 == r2 % 0x100 + r3 * 0x100);
    assert(r3 == r3 % 0x100 + r4 * 0x100);
    assert(r4 == r4 % 0x100 + r5 * 0x100);
    assert(r5 == r5 % 0x100 + r6 * 0x100);
    assert(r6 == r6 % 0x100 + r7 * 0x100);
}

/// Where the bytes of `x` stand at a position, `x` is read there.
pub proof fn lemma_parse_u64(s: Seq<u8>, pos: int, x: u64)
    requires
        holds_at(s, pos, u64_le(x)),
    ensures
        parse_u64(s, pos) == Some((x, 8nat)),
        u64_le(x).len() == 8,
{
    lemma_u64_le_value(x);
    let part = s.subrange(pos, pos + 8);
    assert(part[0] == s[pos] && part[1] == s[pos + 1] && part[2] == s[pos + 2] && part[3] == s[pos
        + 3]);
    assert(part[4] == s[pos + 4] && part[5] == s[pos + 5] && part[6] == s[pos + 6] && part[7]
        == s[pos + 7]);
    assert(u64_at(s, pos) == u64_at(part, 0)) by {
        reveal(u64_at);
    }
}

/// The number read at a position is written as the eight bytes that stand
/// there.
pub proof fn lemma_parsed_u64(s: Seq<u8>, pos: int)
    requires
        parse_u64(s, pos) is Some,
    ensures
        holds_at(s, pos, u64_le(parse_u64(s, pos).unwrap().0)),
        parse_u64(s, pos).unwrap().1 == 8,
        u64_le(parse_u64(s, pos).unwrap().0).len() == 8,
{
    reveal(u64_le);
    reveal(u64_at);
    let b0 = s[pos] as int;
    let b1 = s[pos + 1] as int;
    let b2 = s[pos + 2] as int;
    let b3 = s[pos + 3] as int;
    let b4 = s[pos + 4] as int;
    let b5 = s[pos + 5] as int;
    let b6 = s[pos + 6] as int;
    let b7 = s[pos + 7] as int;
    let r7 = b7;
    let r6 = b6 + r7 * 0x100;
    let r5 = b5 + r6 * 0x100;
    let r4 = b4 + r5 * 0x100;
    let r3 = b3 + r4 * 0x100;
    let r2 = b2 + r3 * 0x100;
    let r1 = b1 + r2 * 0x100;
    let x = b0 + r1 * 0x100;
    assert(x == b0 + b1 * 0x100 + b2 * 0x1_0000 + b3 * 0x100_0000 + b4 * 0x1_0000_0000 + b5
        * 0x100_0000_0000 + b6 * 0x1_0000_0000_0000 + b7 * 0x100_0000_0000_0000);
    assert(x / 0x100 == r1 && x % 0x100 == b0);
    assert(r1 / 0x100 == r2 && r1 % 0x100 == b1);
    assert(r2 / 0x100 == r3 && r2 % 0x100 == b2);
    assert(r3 / 0x100 == r4 && r3 % 0x100 == b3);
    assert(r4 / 0x100 == r5 && r4 % 0x100 == b4);
    assert(r5 / 0x100 == r6 && r5 % 0x100 == b5);
    assert(r6 / 0x100 == r7 && r6 % 0x100 == b6);
    assert(x / 0x1_0000 == r2);
    assert(x / 0x100_0000 == r3);
    assert(x / 0x1_0000_0000 == r4);
    assert(x / 0x100_0000_0000 == r5);
    assert(x / 0x1_0000_0000_0000 == r6);
    assert(x / 0x100_0000_0000_0000 == r7);
    assert(s.subrange(pos, pos + 8) =~= u64_le(x as u64));
}

/// Appends the bytes of `x` to `out`.
pub fn put_u64(out: &mut Vec<u8>, x: u64)
    ensures
        final(out)@ == old(out)@ + u64_le(x),
{
    out.push((x % 0x100) as u8);
    out.push((x / 0x100 % 0x100) as u8);
    out.push((x / 0x1_0000 % 0x100) as u8);
    out.push((x / 0x100_0000 % 0x100) as u8);
    out.push((x / 0x1_0000_0000 % 0x100) as u8);
    out.push((x / 0x100_0000_0000 % 0x100) as u8);
    out.push((x / 0x1_0000_0000_0000 % 0x100) as u8);
    out.push((x / 0x100_0000_0000_0000 % 0x100) as u8);
    proof {
        reveal(u64_le);
    }
    assert(out@ =~= old(out)@ + u64_le(x));
}

/// Reads the `u64` that stands at `pos`, and says where it ends.
pub fn take_u64(buf: &[u8], pos: usize) -> (r: Option<(u64, usize)>)
    requires
        pos <= buf@.len(),
    ensures
        match r {
            Some((x, next)) => parse_u64(buf@, pos as int) == Some((x, (next - pos) as nat))
                && next == pos + 8 && next <= buf@.len(),
            None => parse_u64(buf@, pos as int) is None,
        },
{
    if buf.len() - pos < 8 {
        return None;
    }
    proof {
        reveal(u64_at);
    }
    let b0: u64 = buf[pos] as u64;
    let b1: u64 = buf[pos + 1] as u64;
    let b2: u64 = buf[pos + 2] as u64;
    let b3: u64 = buf[pos + 3] as u64;
    let b4: u64 = buf[pos + 4] as u64;
    let b5: u64 = buf[pos + 5] as u64;
    let b6: u64 = buf[pos + 6] as u64;
    let b7: u64 = buf[pos + 7] as u64;
    Some(
        (
            b0 + b1 * 0x100 + b2 * 0x1_0000 + b3 * 0x100_0000 + b4 * 0x1_0000_0000 + b5
                * 0x100_0000_0000 + b6 * 0x1_0000_0000_0000 + b7 * 0x100_0000_0000_0000,
            pos + 8,
        ),
    )
}

// ---------------------------------------------------------------- bool

/// The byte of a boolean: 1 for `true`, 0 for `false`.
pub open spec fn bool_byte(b: bool) -> Seq<u8> {
    seq![if b { 1u8 } else { 0u8 }]
}

/// A boolean is one byte, 0 or 1; any other byte is no boolean.
pub open spec fn parse_bool(s: Seq<u8>, pos: int) -> Option<(bool, nat)> {
    if 0 <= pos && pos + 1 <= s.len() && s[pos] <= 1 {
        Some((s[pos] == 1, 1nat))
    } else {
        None
    }
}

/// Where the byte of `b` stands at a position, `b` is read there.
pub proof fn lemma_parse_bool(s: Seq<u8>, pos: int, b: bool)
    requires
        holds_at(s, pos, bool_byte(b)),
    ensures
        parse_bool(s, pos) == Some((b, 1nat)),
{
    assert(s.subrange(pos, pos + 1)[0] == s[pos]);
}

/// The boolean read at a position is written as the byte that stands
/// there.
pub proof fn lemma_parsed_bool(s: Seq<u8>, pos: int)
    requires
        parse_bool(s, pos) is Some,
    ensures
        holds_at(s, pos, bool_byte(parse_bool(s, pos).unwrap().0)),
        parse_bool(s, pos).unwrap().1 == 1,
{
    assert(s.subrange(pos, pos + 1) =~= bool_byte(s[pos] == 1));
}

/// Appends the byte of `b` to `out`.
pub fn put_bool(out: &mut Vec<u8>, b: bool)
    ensures
        final(out)@ == old(out)@ + bool_byte(b),
{
    out.push(if b { 1u8 } else { 0u8 });
    assert(out@ =~= old(out)@ + bool_byte(b));
}

/// Reads the boolean that stands at `pos`, and says where it ends.
pub fn take_bool(buf: &[u8], pos: usize) -> (r: Option<(bool, usize)>)
    requires
        pos <= buf@.len(),
    ensures
        match r {
            Some((b, next)) => parse_bool(buf@, pos as int) == Some((b, (next - pos) as nat))
                && next == pos + 1 && next <= buf@.len(),
            None => parse_bool(buf@, pos as int) is None,
        },
{
    if buf.len() - pos < 1 {
        return None;
    }
    let b: u8 = buf[pos];
    if b == 0 {
        Some((false, pos + 1))
    } else if b == 1 {
        Some((true, pos + 1))
    } else {
        None
    }
}

// ---------------------------------------------------------------- bytes

/// A byte string: its length as a `u64`, then the bytes.
pub open spec fn blob(b: Seq<u8>) -> Seq<u8> {
    u64_le(b.len() as u64) + b
}

/// The byte string that stands at `pos`; `None` where the buffer ends
/// before the string does.
pub open spec fn parse_blob(s: Seq<u8>, pos: int) -> Option<(Seq<u8>, nat)> {
    match parse_u64(s, pos) {
        Some((n, _)) => if pos + 8 + n <= s.len() {
            Some((s.subrange(pos + 8, pos + 8 + n), (8 + n) as nat))
        } else {
            None
        },
        None => None,
    }
}

/// Where the encoding of `b` stands at a position, `b` is read there.
pub proof fn lemma_parse_blob(s: Seq<u8>, pos: int, b: Seq<u8>)
    requires
        b.len() <= u64::MAX,
        holds_at(s, pos, blob(b)),
    ensures
        parse_blob(s, pos) == Some((b, blob(b).len())),
        blob(b).len() == 8 + b.len(),
{
    lemma_holds_at_concat(s, pos, u64_le(b.len() as u64), b);
    lemma_parse_u64(s, pos, b.len() as u64);
}

/// The byte string read at a position is written as the bytes that stand
/// there.
pub proof fn lemma_parsed_blob(s: Seq<u8>, pos: int)
    requires
        parse_blob(s, pos) is Some,
    ensures
        holds_at(s, pos, blob(parse_blob(s, pos).unwrap().0)),
        parse_blob(s, pos).unwrap().1 == blob(parse_blob(s, pos).unwrap().0).len(),
        parse_blob(s, pos).unwrap().0.len() <= u64::MAX,
{
    lemma_parsed_u64(s, pos);
    let b = parse_blob(s, pos).unwrap().0;
    let n = parse_u64(s, pos).unwrap().0;
    assert(b.len() == n);
    assert(s.subrange(pos + 8, pos + 8 + b.len()) =~= b);
    lemma_holds_at_concat(s, pos, u64_le(n), b);
}

/// Appends the length of `b` and then `b` to `out`.
pub fn put_blob(out: &mut Vec<u8>, b: &[u8])
    ensures
        final(out)@ == old(out)@ + blob(b@),
{
    put_u64(out, b.len() as u64);
    out.extend_from_slice(b);
    assert(out@ =~= old(out)@ + blob(b@));
}

/// Reads the byte string that stands at `pos`, and says where it ends.
pub fn take_blob<'a>(buf: &'a [u8], pos: usize) -> (r: Option<(&'a [u8], usize)>)
    requires
        pos <= buf@.len(),
    ensures
        match r {
            Some((b, next)) => parse_blob(buf@, pos as int) == Some((b@, (next - pos) as nat))
                && pos + 8 <= next <= buf@.len(),
            None => parse_blob(buf@, pos as int) is None,
        },
{
    match take_u64(buf, pos) {
        None => None,
        Some((n, start)) => {
            if n > (buf.len() - start) as u64 {
                None
            } else {
                let end: usize = start + n as usize;
                Some((slice_subrange(buf, start, end), end))
            }
        },
    }
}

// ---------------------------------------------------------------- text

/// Text: the byte string of its UTF-8 encoding.
pub open spec fn text(s: Seq<char>) -> Seq<u8> {
    blob(encode_utf8(s))
}

/// Text is a byte string that is valid UTF-8; any other byte string is no
/// text.
pub open spec fn parse_text(s: Seq<u8>, pos: int) -> Option<(Seq<char>, nat)> {
    match parse_blob(s, pos) {
        Some((b, used)) => if valid_utf8(b) {
            Some((decode_utf8(b), used))
        } else {
            None
        },
        None => None,
    }
}

/// Where the encoding of `t` stands at a position, `t` is read there.
pub proof fn lemma_parse_text(s: Seq<u8>, pos: int, t: Seq<char>)
    requires
        encode_utf8(t).len() <= u64::MAX,
        holds_at(s, pos, text(t)),
    ensures
        parse_text(s, pos) == Some((t, text(t).len())),
        text(t).len() == 8 + encode_utf8(t).len(),
{
    lemma_parse_blob(s, pos, encode_utf8(t));
    encode_utf8_valid_utf8(t);
    encode_utf8_decode_utf8(t);
}

/// The text read at a position is written as the bytes that stand there.
pub proof fn lemma_parsed_text(s: Seq<u8>, pos: int)
    requires
        parse_text(s, pos) is Some,
    ensures
        holds_at(s, pos, text(parse_text(s, pos).unwrap().0)),
        parse_text(s, pos).unwrap().1 == text(parse_text(s, pos).unwrap().0).len(),
        encode_utf8(parse_text(s, pos).unwrap().0).len() <= u64::MAX,
{
    lemma_parsed_blob(s, pos);
    decode_utf8_encode_utf8(parse_blob(s, pos).unwrap().0);
}

/// `std::str::from_utf8`: succeeds exactly on well-formed UTF-8, and the
/// text it returns is the one those bytes encode.
#[verifier::external_body]
pub(crate) fn str_from_utf8<'a>(bytes: &'a [u8]) -> (r: Option<&'a str>)
    ensures
        r is Some <==> valid_utf8(bytes@),
        r matches Some(s) ==> s@ == decode_utf8(bytes@),
{
    std::str::from_utf8(bytes).ok()
}

/// Appends the encoding of `t` to `out`.
pub fn put_text(out: &mut Vec<u8>, t: &str)
    ensures
        final(out)@ == old(out)@ + text(t@),
        encode_utf8(t@).len() <= u64::MAX,
{
    let b = t.as_bytes();
    let n: usize = b.len();
    assert(encode_utf8(t@).len() == n);
    put_blob(out, b);
}

/// Reads the text that stands at `pos`, and says where it ends.
pub fn take_text(buf: &[u8], pos: usize) -> (r: Option<(String, usize)>)
    requires
        pos <= buf@.len(),
    ensures
        match r {
            Some((t, next)) => parse_text(buf@, pos as int) == Some((t@, (next - pos) as nat))
                && pos + 8 <= next <= buf@.len(),
            None => parse_text(buf@, pos as int) is None,
        },
{
    match take_blob(buf, pos) {
        None => None,
        Some((b, next)) => match str_from_utf8(b) {
            None => None,
            Some(t) => Some((t.to_owned(), next)),
        },
    }
}

} // verus!
