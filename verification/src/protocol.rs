//! The messages of the protocol and the frames that carry them.
//!
//! A message is written as the number of its variant, a `u32`, and then the
//! variant's content. A frame is the length of its payload, a `u32`, and
//! then the payload. All numbers are little-endian.

use crate::fileinfo::{DirInfo, DirView};
use crate::wire::{
    blob, bool_byte, holds_at, lemma_holds_at_concat, lemma_holds_at_start, lemma_parse_blob,
    lemma_parse_bool, lemma_parse_text, lemma_parse_u32, lemma_parsed_blob, lemma_parsed_bool,
    lemma_parsed_text, lemma_parsed_u32, parse_blob, parse_bool, parse_text, parse_u32, put_blob,
    put_bool, put_text, put_u32, take_blob, take_bool, take_text, take_u32, text, u32_le,
};
use crate::wire_tree::{
    decode_dir, dir_fits, encode_dir, lemma_parse_dir, lemma_parsed_dir, lemma_sent_without_paths,
    no_local_paths, parse_dir, sent_dir, ser_dir,
};
use std::sync::Arc;
use vstd::pervasive::unreached;
use vstd::prelude::*;
use vstd::slice::*;
use vstd::string::*;
use vstd::utf8::*;

verus! {

/// What can go wrong with a message.
#[derive(Clone, Debug, PartialEq, Eq)]
pub enum Error {
    /// The payload of a frame is no request.
    BadRequest,
    /// The payload of a frame is no response.
    BadResponse,
    /// The snapshot holds no file under this identifier.
    NotFound(String),
}

/// The text that `{:?}` writes for a string: the string between double
/// quotes, with the escapes that the standard library's `Debug` puts in.
pub uninterp spec fn debug_quoted(s: Seq<char>) -> Seq<char>;

/// `format!("{:?}", s)` for a string slice.
#[verifier::external_body]
pub(crate) fn debug_quote(s: &str) -> (r: String)
    ensures
        r@ == debug_quoted(s@),
{
    format!("{:?}", s)
}

/// How an identifier that was not found is reported to the peer.
pub open spec fn not_found_text(key: Seq<char>) -> Seq<char> {
    "NotFound("@ + debug_quoted(key) + ")"@
}

impl Error {
    /// The error as it is reported to the peer.
    pub open spec fn text(&self) -> Seq<char> {
        match self {
            Error::BadRequest => "BadRequest"@,
            Error::BadResponse => "BadResponse"@,
            Error::NotFound(key) => not_found_text(key@),
        }
    }

    /// The error as it is reported to the peer: the variant's name, and
    /// for `NotFound` the quoted key in parentheses behind it.
    pub fn message(&self) -> (r: String)
        ensures
            r@ == self.text(),
    {
        match self {
            Error::BadRequest => "BadRequest".to_owned(),
            Error::BadResponse => "BadResponse".to_owned(),
            Error::NotFound(key) => {
                let mut out = "NotFound(".to_owned();
                let quoted = debug_quote(key.as_str());
                out.append(quoted.as_str());
                out.append(")");
                out
            },
        }
    }
}

// ------------------------------------------------------------ requests

/// What a client asks of the server.
#[derive(Debug, PartialEq, Eq)]
pub enum Request {
    /// Presents the shared secret.
    Auth(String),
    /// Asks for the snapshot.
    GetDirInfo,
    /// Asks for the content hash of the file with this identifier.
    GetFileHash(String),
    /// Asks for the compressed content of the file with this identifier.
    GetFile(String),
}

/// The model of a [`Request`].
pub ghost enum RequestView {
    Auth(Seq<char>),
    GetDirInfo,
    GetFileHash(Seq<char>),
    GetFile(Seq<char>),
}

impl View for Request {
    type V = RequestView;

    open spec fn view(&self) -> RequestView {
        match self {
            Request::Auth(key) => RequestView::Auth(key@),
            Request::GetDirInfo => RequestView::GetDirInfo,
            Request::GetFileHash(id) => RequestView::GetFileHash(id@),
            Request::GetFile(id) => RequestView::GetFile(id@),
        }
    }
}

impl Clone for Request {
    fn clone(&self) -> (r: Self)
        ensures
            r@ == self@,
    {
        match self {
            Request::Auth(key) => Request::Auth(key.clone()),
            Request::GetDirInfo => Request::GetDirInfo,
            Request::GetFileHash(id) => Request::GetFileHash(id.clone()),
            Request::GetFile(id) => Request::GetFile(id.clone()),
        }
    }
}

/// The bytes of a request: the number of its variant, then its text.
pub open spec fn ser_request(r: RequestView) -> Seq<u8> {
    match r {
        RequestView::Auth(key) => u32_le(0) + text(key),
        RequestView::GetDirInfo => u32_le(1),
        RequestView::GetFileHash(id) => u32_le(2) + text(id),
        RequestView::GetFile(id) => u32_le(3) + text(id),
    }
}

/// The request that stands at `pos`, and the number of bytes it takes.
/// What follows it is not looked at.
pub open spec fn parse_request(s: Seq<u8>, pos: int) -> Option<(RequestView, nat)> {
    match parse_u32(s, pos) {
        None => None,
        Some((tag, a)) => if tag == 1 {
            Some((RequestView::GetDirInfo, a))
        } else if tag == 0 || tag == 2 || tag == 3 {
            match parse_text(s, pos + a) {
                None => None,
                Some((t, b)) => Some(
                    (
                        if tag == 0 {
                            RequestView::Auth(t)
                        } else if tag == 2 {
                            RequestView::GetFileHash(t)
                        } else {
                            RequestView::GetFile(t)
                        },
                        a + b,
                    ),
                ),
            }
        } else {
            None
        },
    }
}

/// The request's text has a length that fits the wire's length field.
pub open spec fn request_fits(r: RequestView) -> bool {
    match r {
        RequestView::Auth(key) => encode_utf8(key).len() <= u64::MAX,
        RequestView::GetDirInfo => true,
        RequestView::GetFileHash(id) => encode_utf8(id).len() <= u64::MAX,
        RequestView::GetFile(id) => encode_utf8(id).len() <= u64::MAX,
    }
}

/// Where the encoding of a request stands at a position, that request is
/// read there.
pub proof fn lemma_parse_request(s: Seq<u8>, pos: int, r: RequestView)
    requires
        request_fits(r),
        holds_at(s, pos, ser_request(r)),
    ensures
        parse_request(s, pos) == Some((r, ser_request(r).len())),
{
    match r {
        RequestView::Auth(t) => {
            lemma_holds_at_concat(s, pos, u32_le(0), text(t));
            lemma_parse_u32(s, pos, 0);
            lemma_parse_text(s, pos + 4, t);
        },
        RequestView::GetDirInfo => {
            lemma_parse_u32(s, pos, 1);
        },
        RequestView::GetFileHash(t) => {
            lemma_holds_at_concat(s, pos, u32_le(2), text(t));
            lemma_parse_u32(s, pos, 2);
            lemma_parse_text(s, pos + 4, t);
        },
        RequestView::GetFile(t) => {
            lemma_holds_at_concat(s, pos, u32_le(3), text(t));
            lemma_parse_u32(s, pos, 3);
            lemma_parse_text(s, pos + 4, t);
        },
    }
}

/// Decoding what a request was encoded to gives the request back, whatever
/// follows the encoding.
pub proof fn law_request_round_trip(r: RequestView, tail: Seq<u8>)
    requires
        request_fits(r),
    ensures
        parse_request(ser_request(r) + tail, 0) == Some((r, ser_request(r).len())),
{
    lemma_holds_at_start(ser_request(r), tail);
    lemma_parse_request(ser_request(r) + tail, 0, r);
}

/// Only the encoding of a request is decoded to it: where a request is
/// read at a position, the bytes that were read are the request's
/// encoding.
pub proof fn law_request_decoded(s: Seq<u8>, pos: int)
    requires
        parse_request(s, pos) is Some,
    ensures
        holds_at(s, pos, ser_request(parse_request(s, pos).unwrap().0)),
        parse_request(s, pos).unwrap().1 == ser_request(parse_request(s, pos).unwrap().0).len(),
        request_fits(parse_request(s, pos).unwrap().0),
{
    lemma_parsed_u32(s, pos);
    let tag = parse_u32(s, pos).unwrap().0;
    if tag != 1 {
        lemma_parsed_text(s, pos + 4);
        let t = parse_text(s, pos + 4).unwrap().0;
        lemma_holds_at_concat(s, pos, u32_le(tag), text(t));
    }
}

impl Request {
    /// The bytes of the request. Decoding them gives the request back.
    pub fn encode(&self) -> (r: Vec<u8>)
        ensures
            r@ == ser_request(self@),
            parse_request(r@, 0) == Some((self@, r@.len())),
    {
        let mut out: Vec<u8> = Vec::new();
        match self {
            Request::Auth(key) => {
                put_u32(&mut out, 0);
                put_text(&mut out, key.as_str());
            },
            Request::GetDirInfo => {
                put_u32(&mut out, 1);
            },
            Request::GetFileHash(id) => {
                put_u32(&mut out, 2);
                put_text(&mut out, id.as_str());
            },
            Request::GetFile(id) => {
                put_u32(&mut out, 3);
                put_text(&mut out, id.as_str());
            },
        }
        proof {
            assert(out@ =~= ser_request(self@));
            law_request_round_trip(self@, Seq::empty());
            assert(ser_request(self@) + Seq::<u8>::empty() =~= ser_request(self@));
        }
        out
    }

    /// The request that `buf` starts with, if it starts with one.
    pub fn try_decode(buf: &[u8]) -> (r: Option<Self>)
        ensures
            match r {
                Some(req) => parse_request(buf@, 0) matches Some((v, _)) && v == req@,
                None => parse_request(buf@, 0) is None,
            },
    {
        let (tag, p1) = match take_u32(buf, 0) {
            None => { return None; },
            Some(x) => x,
        };
        if tag == 1 {
            return Some(Request::GetDirInfo);
        }
        if tag == 0 || tag == 2 || tag == 3 {
            let (t, _) = match take_text(buf, p1) {
                None => { return None; },
                Some(x) => x,
            };
            if tag == 0 {
                Some(Request::Auth(t))
            } else if tag == 2 {
                Some(Request::GetFileHash(t))
            } else {
                Some(Request::GetFile(t))
            }
        } else {
            None
        }
    }

    /// The request that `buf` starts with.
    pub fn decode(buf: &[u8]) -> (r: Self)
        requires
            parse_request(buf@, 0) is Some,
        ensures
            parse_request(buf@, 0) matches Some((v, _)) && v == r@,
    {
        match Request::try_decode(buf) {
            Some(r) => r,
            None => unreached(),
        }
    }
}

// ------------------------------------------------------------ responses

/// What the server answers.
#[derive(Debug, PartialEq, Eq)]
pub enum Response {
    /// Whether the presented secret matched.
    Auth(bool),
    /// The snapshot, with relative paths.
    DirInfo(DirInfo),
    /// A content hash.
    FileHash(String),
    /// The compressed content of a file.
    File(Arc<Vec<u8>>),
    /// Why a request was not served.
    Error(String),
}

/// The model of a [`Response`].
pub ghost enum ResponseView {
    Auth(bool),
    DirInfo(DirView),
    FileHash(Seq<char>),
    File(Seq<u8>),
    Error(Seq<char>),
}

impl View for Response {
    type V = ResponseView;

    open spec fn view(&self) -> ResponseView {
        match self {
            Response::Auth(ok) => ResponseView::Auth(*ok),
            Response::DirInfo(tree) => ResponseView::DirInfo(tree@),
            Response::FileHash(hash) => ResponseView::FileHash(hash@),
            Response::File(bytes) => ResponseView::File(bytes@),
            Response::Error(message) => ResponseView::Error(message@),
        }
    }
}

impl Clone for Response {
    fn clone(&self) -> (r: Self)
        ensures
            r@ == self@,
    {
        match self {
            Response::Auth(ok) => Response::Auth(*ok),
            Response::DirInfo(tree) => Response::DirInfo(tree.clone()),
            Response::FileHash(hash) => Response::FileHash(hash.clone()),
            Response::File(bytes) => Response::File(bytes.clone()),
            Response::Error(message) => Response::Error(message.clone()),
        }
    }
}

/// The bytes of a response: the number of its variant, then its content.
pub open spec fn ser_response(r: ResponseView) -> Seq<u8> {
    match r {
        ResponseView::Auth(ok) => u32_le(0) + bool_byte(ok),
        ResponseView::DirInfo(tree) => u32_le(1) + ser_dir(tree),
        ResponseView::FileHash(hash) => u32_le(2) + text(hash),
        ResponseView::File(bytes) => u32_le(3) + blob(bytes),
        ResponseView::Error(message) => u32_le(4) + text(message),
    }
}

/// The response that stands at `pos`, and the number of bytes it takes.
/// What follows it is not looked at.
pub open spec fn parse_response(s: Seq<u8>, pos: int) -> Option<(ResponseView, nat)> {
    match parse_u32(s, pos) {
        None => None,
        Some((tag, a)) => if tag == 0 {
            match parse_bool(s, pos + a) {
                None => None,
                Some((ok, b)) => Some((ResponseView::Auth(ok), a + b)),
            }
        } else if tag == 1 {
            match parse_dir(s, pos + a) {
                None => None,
                Some((tree, b)) => Some((ResponseView::DirInfo(tree), a + b)),
            }
        } else if tag == 2 {
            match parse_text(s, pos + a) {
                None => None,
                Some((hash, b)) => Some((ResponseView::FileHash(hash), a + b)),
            }
        } else if tag == 3 {
            match parse_blob(s, pos + a) {
                None => None,
                Some((bytes, b)) => Some((ResponseView::File(bytes), a + b)),
            }
        } else if tag == 4 {
            match parse_text(s, pos + a) {
                None => None,
                Some((message, b)) => Some((ResponseView::Error(message), a + b)),
            }
        } else {
            None
        },
    }
}

/// Every text, byte string and list of the response has a length that fits
/// the wire's length field.
pub open spec fn response_fits(r: ResponseView) -> bool {
    match r {
        ResponseView::Auth(_) => true,
        ResponseView::DirInfo(tree) => dir_fits(tree),
        ResponseView::FileHash(hash) => encode_utf8(hash).len() <= u64::MAX,
        ResponseView::File(bytes) => bytes.len() <= u64::MAX,
        ResponseView::Error(message) => encode_utf8(message).len() <= u64::MAX,
    }
}

/// The response as the receiver sees it: the files of a snapshot come
/// without their local paths.
pub open spec fn sent_response(r: ResponseView) -> ResponseView {
    match r {
        ResponseView::DirInfo(tree) => ResponseView::DirInfo(sent_dir(tree)),
        _ => r,
    }
}

/// Where the encoding of a response stands at a position, that response
/// is read there, as it was sent.
pub proof fn lemma_parse_response(s: Seq<u8>, pos: int, r: ResponseView)
    requires
        response_fits(r),
        holds_at(s, pos, ser_response(r)),
    ensures
        parse_response(s, pos) == Some((sent_response(r), ser_response(r).len())),
{
    match r {
        ResponseView::Auth(ok) => {
            lemma_holds_at_concat(s, pos, u32_le(0), bool_byte(ok));
            lemma_parse_u32(s, pos, 0);
            lemma_parse_bool(s, pos + 4, ok);
        },
        ResponseView::DirInfo(tree) => {
            lemma_holds_at_concat(s, pos, u32_le(1), ser_dir(tree));
            lemma_parse_u32(s, pos, 1);
            lemma_parse_dir(s, pos + 4, tree);
        },
        ResponseView::FileHash(hash) => {
            lemma_holds_at_concat(s, pos, u32_le(2), text(hash));
            lemma_parse_u32(s, pos, 2);
            lemma_parse_text(s, pos + 4, hash);
        },
        ResponseView::File(bytes) => {
            lemma_holds_at_concat(s, pos, u32_le(3), blob(bytes));
            lemma_parse_u32(s, pos, 3);
            lemma_parse_blob(s, pos + 4, bytes);
        },
        ResponseView::Error(message) => {
            lemma_holds_at_concat(s, pos, u32_le(4), text(message));
            lemma_parse_u32(s, pos, 4);
            lemma_parse_text(s, pos + 4, message);
        },
    }
}

/// Decoding what a response was encoded to gives the response back as it
/// was sent, whatever follows the encoding.
pub proof fn law_response_round_trip(r: ResponseView, tail: Seq<u8>)
    requires
        response_fits(r),
    ensures
        parse_response(ser_response(r) + tail, 0) == Some(
            (sent_response(r), ser_response(r).len()),
        ),
{
    lemma_holds_at_start(ser_response(r), tail);
    lemma_parse_response(ser_response(r) + tail, 0, r);
}

/// Decoding what a response was encoded to gives the very same response
/// back, where it holds no snapshot or one whose files have no local
/// path.
pub proof fn law_response_round_trip_exact(r: ResponseView, tail: Seq<u8>)
    requires
        response_fits(r),
        r matches ResponseView::DirInfo(tree) ==> no_local_paths(tree),
    ensures
        parse_response(ser_response(r) + tail, 0) == Some((r, ser_response(r).len())),
{
    law_response_round_trip(r, tail);
    if let ResponseView::DirInfo(tree) = r {
        lemma_sent_without_paths(tree);
    }
}

/// Only the encoding of a response is decoded to it: where a response is
/// read at a position, the bytes that were read are the response's
/// encoding. A snapshot that was read has no local paths.
pub proof fn law_response_decoded(s: Seq<u8>, pos: int)
    requires
        parse_response(s, pos) is Some,
    ensures
        holds_at(s, pos, ser_response(parse_response(s, pos).unwrap().0)),
        parse_response(s, pos).unwrap().1 == ser_response(parse_response(s, pos).unwrap().0).len(),
        response_fits(parse_response(s, pos).unwrap().0),
        parse_response(s, pos).unwrap().0 matches ResponseView::DirInfo(tree) ==> no_local_paths(
            tree,
        ),
{
    lemma_parsed_u32(s, pos);
    let tag = parse_u32(s, pos).unwrap().0;
    if tag == 0 {
        lemma_parsed_bool(s, pos + 4);
        lemma_holds_at_concat(s, pos, u32_le(tag), bool_byte(parse_bool(s, pos + 4).unwrap().0));
    } else if tag == 1 {
        lemma_parsed_dir(s, pos + 4);
        lemma_holds_at_concat(s, pos, u32_le(tag), ser_dir(parse_dir(s, pos + 4).unwrap().0));
    } else if tag == 3 {
        lemma_parsed_blob(s, pos + 4);
        lemma_holds_at_concat(s, pos, u32_le(tag), blob(parse_blob(s, pos + 4).unwrap().0));
    } else {
        lemma_parsed_text(s, pos + 4);
        lemma_holds_at_concat(s, pos, u32_le(tag), text(parse_text(s, pos + 4).unwrap().0));
    }
}

impl Response {
    /// The bytes of the response. Decoding them gives the response back,
    /// the files of a snapshot without their local paths.
    pub fn encode(&self) -> (r: Vec<u8>)
        ensures
            r@ == ser_response(self@),
            parse_response(r@, 0) == Some((sent_response(self@), r@.len())),
    {
        let mut out: Vec<u8> = Vec::new();
        match self {
            Response::Auth(ok) => {
                put_u32(&mut out, 0);
                put_bool(&mut out, *ok);
            },
            Response::DirInfo(tree) => {
                put_u32(&mut out, 1);
                encode_dir(tree, &mut out);
            },
            Response::FileHash(hash) => {
                put_u32(&mut out, 2);
                put_text(&mut out, hash.as_str());
            },
            Response::File(bytes) => {
                put_u32(&mut out, 3);
                let content = bytes.as_slice();
                let n: usize = content.len();
                put_blob(&mut out, content);
            },
            Response::Error(message) => {
                put_u32(&mut out, 4);
                put_text(&mut out, message.as_str());
            },
        }
        proof {
            assert(out@ =~= ser_response(self@));
            law_response_round_trip(self@, Seq::empty());
            assert(ser_response(self@) + Seq::<u8>::empty() =~= ser_response(self@));
        }
        out
    }

    /// The response that `buf` starts with, if it starts with one.
    pub fn try_decode(buf: &[u8]) -> (r: Option<Self>)
        ensures
            match r {
                Some(resp) => parse_response(buf@, 0) matches Some((v, _)) && v == resp@,
                None => parse_response(buf@, 0) is None,
            },
    {
        let (tag, p1) = match take_u32(buf, 0) {
            None => { return None; },
            Some(x) => x,
        };
        if tag == 0 {
            match take_bool(buf, p1) {
                None => None,
                Some((ok, _)) => Some(Response::Auth(ok)),
            }
        } else if tag == 1 {
            match decode_dir(buf, p1) {
                None => None,
                Some((tree, _)) => Some(Response::DirInfo(tree)),
            }
        } else if tag == 2 {
            match take_text(buf, p1) {
                None => None,
                Some((hash, _)) => Some(Response::FileHash(hash)),
            }
        } else if tag == 3 {
            match take_blob(buf, p1) {
                None => None,
                Some((bytes, _)) => Some(Response::File(Arc::new(slice_to_vec(bytes)))),
            }
        } else if tag == 4 {
            match take_text(buf, p1) {
                None => None,
                Some((message, _)) => Some(Response::Error(message)),
            }
        } else {
            None
        }
    }

    /// The response that `buf` starts with.
    pub fn decode(buf: &[u8]) -> (r: Self)
        requires
            parse_response(buf@, 0) is Some,
        ensures
            parse_response(buf@, 0) matches Some((v, _)) && v == r@,
    {
        match Response::try_decode(buf) {
            Some(r) => r,
            None => unreached(),
        }
    }
}

// ------------------------------------------------------------ frames

/// One message on the wire: the length of the payload and the payload.
#[derive(Debug, PartialEq, Eq)]
pub struct Frame {
    pub len: u32,
    pub data: Vec<u8>,
}

/// The model of a [`Frame`].
pub ghost struct FrameView {
    pub len: u32,
    pub data: Seq<u8>,
}

impl View for Frame {
    type V = FrameView;

    open spec fn view(&self) -> FrameView {
        FrameView { len: self.len, data: self.data@ }
    }
}

/// The frame's length field is the length of its payload.
pub open spec fn frame_wf(f: FrameView) -> bool {
    f.len == f.data.len()
}

/// The bytes of a frame: the length field, then the payload.
pub open spec fn ser_frame(f: FrameView) -> Seq<u8> {
    u32_le(f.len) + f.data
}

/// The frame that stands at `pos` of a byte stream, and the number of
/// bytes it takes: four bytes of length and as many bytes of payload as
/// they say. `None` where the stream ends before that.
pub open spec fn parse_frame(s: Seq<u8>, pos: int) -> Option<(FrameView, nat)> {
    match parse_u32(s, pos) {
        None => None,
        Some((n, a)) => if pos + a + n <= s.len() {
            Some((FrameView { len: n, data: s.subrange(pos + a, pos + a + n) }, (a + n) as nat))
        } else {
            None
        },
    }
}

/// A frame written to a byte stream is read back from it as it was, length
/// and payload, whatever follows it and also where the payload is empty.
pub proof fn law_frame_round_trip(f: FrameView, tail: Seq<u8>)
    requires
        frame_wf(f),
    ensures
        parse_frame(ser_frame(f) + tail, 0) == Some((f, ser_frame(f).len())),
{
    let s = ser_frame(f) + tail;
    lemma_holds_at_start(ser_frame(f), tail);
    lemma_holds_at_concat(s, 0, u32_le(f.len), f.data);
    lemma_parse_u32(s, 0, f.len);
    assert(s.subrange(4, 4 + f.len) =~= f.data);
}

/// Only what was written as a frame is read as one: where a frame is read
/// at a position, the bytes that were read are its length field and its
/// payload, and the two agree.
pub proof fn law_frame_decoded(s: Seq<u8>, pos: int)
    requires
        parse_frame(s, pos) is Some,
    ensures
        holds_at(s, pos, ser_frame(parse_frame(s, pos).unwrap().0)),
        parse_frame(s, pos).unwrap().1 == ser_frame(parse_frame(s, pos).unwrap().0).len(),
        frame_wf(parse_frame(s, pos).unwrap().0),
{
    lemma_parsed_u32(s, pos);
    let f = parse_frame(s, pos).unwrap().0;
    assert(s.subrange(pos + 4, pos + 4 + f.data.len()) =~= f.data);
    lemma_holds_at_concat(s, pos, u32_le(f.len), f.data);
}

impl Frame {
    /// The frame's length field is the length of its payload.
    pub open spec fn wf(&self) -> bool {
        frame_wf(self@)
    }

    /// The frame that carries `data`; `None` where `data` is longer than a
    /// frame's length field can say.
    pub fn new(data: Vec<u8>) -> (r: Option<Self>)
        ensures
            match r {
                Some(f) => f.wf() && f.data@ == data@,
                None => data@.len() > u32::MAX,
            },
    {
        if data.len() > u32::MAX as usize {
            None
        } else {
            Some(Frame { len: data.len() as u32, data })
        }
    }

    /// The frame that carries `request`.
    pub fn from_request(request: &Request) -> (r: Self)
        requires
            ser_request(request@).len() <= u32::MAX,
        ensures
            r.wf(),
            r.data@ == ser_request(request@),
    {
        let buf = request.encode();
        Frame { len: buf.len() as u32, data: buf }
    }

    /// The frame that carries `response`.
    pub fn from_response(response: &Response) -> (r: Self)
        requires
            ser_response(response@).len() <= u32::MAX,
        ensures
            r.wf(),
            r.data@ == ser_response(response@),
    {
        let buf = response.encode();
        Frame { len: buf.len() as u32, data: buf }
    }

    /// Reads the frame that stands at `pos` of the byte stream `reader`,
    /// and says where the next one starts. `None` where the stream ends
    /// before the frame does.
    pub fn read(reader: &[u8], pos: usize) -> (r: Option<(Self, usize)>)
        requires
            pos <= reader@.len(),
        ensures
            match r {
                Some((f, next)) => parse_frame(reader@, pos as int) == Some(
                    (f@, (next - pos) as nat),
                ) && f.wf() && pos + 4 <= next <= reader@.len(),
                None => parse_frame(reader@, pos as int) is None,
            },
    {
        let (n, start) = match take_u32(reader, pos) {
            None => { return None; },
            Some(x) => x,
        };
        if n as usize > reader.len() - start {
            return None;
        }
        let end: usize = start + n as usize;
        let data = slice_to_vec(slice_subrange(reader, start, end));
        Some((Frame { len: n, data }, end))
    }

    /// Appends the frame to the byte stream `writer`: the length field,
    /// then the payload.
    pub fn write(&self, writer: &mut Vec<u8>)
        ensures
            final(writer)@ == old(writer)@ + ser_frame(self@),
    {
        put_u32(writer, self.len);
        writer.extend_from_slice(self.data.as_slice());
        assert(writer@ =~= old(writer)@ + ser_frame(self@));
    }

    /// The request that the payload holds; `BadRequest` where it holds
    /// none.
    pub fn to_request(&self) -> (r: Result<Request, Error>)
        ensures
            match r {
                Ok(req) => parse_request(self.data@, 0) matches Some((v, _)) && v == req@,
                Err(e) => e is BadRequest && parse_request(self.data@, 0) is None,
            },
    {
        match Request::try_decode(self.data.as_slice()) {
            Some(request) => Ok(request),
            None => Err(Error::BadRequest),
        }
    }

    /// The response that the payload holds; `BadResponse` where it holds
    /// none.
    pub fn to_response(&self) -> (r: Result<Response, Error>)
        ensures
            match r {
                Ok(resp) => parse_response(self.data@, 0) matches Some((v, _)) && v == resp@,
                Err(e) => e is BadResponse && parse_response(self.data@, 0) is None,
            },
    {
        match Response::try_decode(self.data.as_slice()) {
            Some(response) => Ok(response),
            None => Err(Error::BadResponse),
        }
    }
}

} // verus!
