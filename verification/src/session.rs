//! The server's side of one connection, as a state machine.
//!
//! A session starts unauthenticated. A request that presents the secret
//! makes it authenticated, with or without a match; every other request is
//! served only after a match, and ends the session otherwise. The machine
//! decides; whoever runs it reads the frames, sends the replies and reads
//! the files that the machine asks for.

use crate::compress::deflated;
use crate::index::file_map;
use crate::paths::joined;
use crate::protocol::{
    not_found_text, parse_request, Frame, Request, RequestView, Response, ResponseView,
};
use crate::server::{
    cached, installed, self_key, served_hash, served_path, ServerState, ServerView, UpdateView,
};
use crate::text::str_eq;
use vstd::prelude::*;

verus! {

/// Where a session stands.
#[derive(Clone, Copy, Debug, PartialEq, Eq)]
pub enum SessionState {
    /// No secret was presented yet.
    Unauthenticated,
    /// A secret was presented; the flag says whether it matched.
    Authenticated(bool),
    /// The session is over.
    Closed,
}

/// What is to be done after a request.
#[derive(Debug, PartialEq, Eq)]
pub enum Action {
    /// Send the response and go on.
    Reply(Response),
    /// Send the response and close the connection.
    ReplyAndClose(Response),
    /// Read the file at `path` and hand its content to
    /// [`on_loaded`] under `key`.
    Load { key: String, path: String },
    /// Close the connection without a response.
    Close,
}

/// The model of an [`Action`].
pub ghost enum ActionView {
    Reply(ResponseView),
    ReplyAndClose(ResponseView),
    Load { key: Seq<char>, path: Seq<char> },
    Close,
}

impl View for Action {
    type V = ActionView;

    open spec fn view(&self) -> ActionView {
        match self {
            Action::Reply(r) => ActionView::Reply(r@),
            Action::ReplyAndClose(r) => ActionView::ReplyAndClose(r@),
            Action::Load { key, path } => ActionView::Load { key: key@, path: path@ },
            Action::Close => ActionView::Close,
        }
    }
}

/// What a request without a matching secret is answered with.
pub open spec fn auth_required() -> ResponseView {
    ResponseView::Error("auth required"@)
}

/// The answer to a request for the content hash under `key`.
pub open spec fn hash_reply(server: ServerView, key: Seq<char>) -> ResponseView {
    match served_hash(server.info, key) {
        Some(hash) => ResponseView::FileHash(hash),
        None => ResponseView::Error(not_found_text(key)),
    }
}

/// What is done about a request for the content under `key`: it is served
/// from the cache where the cache has it; else the file is to be read,
/// where the snapshot has one; else the key is reported as not found.
pub open spec fn file_action(server: ServerView, exe_path: Seq<char>, key: Seq<char>) -> ActionView {
    if server.cache.contains_key(key) {
        ActionView::Reply(ResponseView::File(server.cache[key]))
    } else {
        match served_path(server.info, exe_path, key) {
            Some(path) => ActionView::Load { key, path },
            None => ActionView::Reply(ResponseView::Error(not_found_text(key))),
        }
    }
}

/// Whether requests other than `Auth` are served in `state`.
pub open spec fn is_open(state: SessionState) -> bool {
    state == SessionState::Authenticated(true)
}

/// What becomes of a request other than `Auth`: it is served as `served`
/// says where the session is open; else it is refused and the session ends.
pub open spec fn served_if_open(state: SessionState, served: ActionView) -> (
    SessionState,
    ActionView,
) {
    if is_open(state) {
        (state, served)
    } else {
        (SessionState::Closed, ActionView::ReplyAndClose(auth_required()))
    }
}

/// The session's next state and what is to be done, for a request received
/// in `state`. A session that is over does nothing more.
pub open spec fn step(
    state: SessionState,
    request: RequestView,
    secret: Seq<char>,
    server: ServerView,
    exe_path: Seq<char>,
) -> (SessionState, ActionView) {
    if state is Closed {
        (SessionState::Closed, ActionView::Close)
    } else {
        match request {
            RequestView::Auth(key) => (
                SessionState::Authenticated(key == secret),
                ActionView::Reply(ResponseView::Auth(key == secret)),
            ),
            RequestView::GetDirInfo => served_if_open(
                state,
                ActionView::Reply(ResponseView::DirInfo(server.info.dir_info)),
            ),
            RequestView::GetFileHash(key) => served_if_open(
                state,
                ActionView::Reply(hash_reply(server, key)),
            ),
            RequestView::GetFile(key) => served_if_open(state, file_action(server, exe_path, key)),
        }
    }
}

/// The session's next state and what is to be done, for a frame received in
/// `state` that holds `data`: a payload that is no request is answered with
/// an error and ends the session.
pub open spec fn frame_step(
    state: SessionState,
    data: Seq<u8>,
    secret: Seq<char>,
    server: ServerView,
    exe_path: Seq<char>,
) -> (SessionState, ActionView) {
    if state is Closed {
        (SessionState::Closed, ActionView::Close)
    } else {
        match parse_request(data, 0) {
            Some((request, _)) => step(state, request, secret, server, exe_path),
            None => (
                SessionState::Closed,
                ActionView::ReplyAndClose(ResponseView::Error("BadRequest"@)),
            ),
        }
    }
}

/// The state of the server, the session's next state and what is to be
/// done once the file asked for under `key` was read, or could not be
/// read: the content is compressed, cached under `key` and sent; a failure
/// to read or to compress ends the session without a response, and so
/// does a state in which no file is served.
pub open spec fn loaded_step(
    state: SessionState,
    server: ServerView,
    key: Seq<char>,
    content: Option<Seq<u8>>,
) -> (ServerView, SessionState, ActionView) {
    if !is_open(state) {
        (server, SessionState::Closed, ActionView::Close)
    } else {
        match content {
            Some(bytes) => match deflated(bytes) {
                Some(packed) => (
                    cached(server, key, packed),
                    state,
                    ActionView::Reply(ResponseView::File(packed)),
                ),
                None => (server, SessionState::Closed, ActionView::Close),
            },
            None => (server, SessionState::Closed, ActionView::Close),
        }
    }
}

/// The state of a session that begins.
pub fn open_session() -> (r: SessionState)
    ensures
        r == SessionState::Unauthenticated,
{
    SessionState::Unauthenticated
}

/// A frame could not be read or written: the session is over, and nothing
/// more is sent.
pub fn on_io_failure(state: SessionState) -> (r: SessionState)
    ensures
        r == SessionState::Closed,
{
    SessionState::Closed
}

fn refuse() -> (r: (SessionState, Action))
    ensures
        r.0 == SessionState::Closed,
        r.1@ == ActionView::ReplyAndClose(auth_required()),
{
    (SessionState::Closed, Action::ReplyAndClose(Response::Error("auth required".to_owned())))
}

/// Decides what to do about `request`, received in `state`, where `secret`
/// is the configured secret and `exe_path` the path of the running
/// executable.
pub fn on_request(
    state: SessionState,
    request: &Request,
    secret: &str,
    server: &ServerState,
    exe_path: &str,
) -> (r: (SessionState, Action))
    requires
        server.wf(),
    ensures
        r.0 == step(state, request@, secret@, server@, exe_path@).0,
        r.1@ == step(state, request@, secret@, server@, exe_path@).1,
{
    let open = match state {
        SessionState::Closed => {
            return (SessionState::Closed, Action::Close);
        },
        SessionState::Authenticated(true) => true,
        _ => false,
    };
    match request {
        Request::Auth(key) => {
            let matched = str_eq(key.as_str(), secret);
            (SessionState::Authenticated(matched), Action::Reply(Response::Auth(matched)))
        },
        Request::GetDirInfo => {
            if !open {
                return refuse();
            }
            (state, Action::Reply(Response::DirInfo(server.info().dir_info().clone())))
        },
        Request::GetFileHash(key) => {
            if !open {
                return refuse();
            }
            let response = match server.info().get_file_hash(key.as_str()) {
                Ok(hash) => Response::FileHash(hash),
                Err(e) => Response::Error(e.message()),
            };
            (state, Action::Reply(response))
        },
        Request::GetFile(key) => {
            if !open {
                return refuse();
            }
            match server.cached_content(key.as_str()) {
                Some(bytes) => (state, Action::Reply(Response::File(bytes))),
                None => match server.info().get_file_path(key.as_str(), exe_path) {
                    Ok(path) => (state, Action::Load { key: key.clone(), path }),
                    Err(e) => (state, Action::Reply(Response::Error(e.message()))),
                },
            }
        },
    }
}

/// Decides what to do about `frame`, received in `state`.
pub fn on_frame(
    state: SessionState,
    frame: &Frame,
    secret: &str,
    server: &ServerState,
    exe_path: &str,
) -> (r: (SessionState, Action))
    requires
        server.wf(),
    ensures
        r.0 == frame_step(state, frame.data@, secret@, server@, exe_path@).0,
        r.1@ == frame_step(state, frame.data@, secret@, server@, exe_path@).1,
{
    match state {
        SessionState::Closed => (SessionState::Closed, Action::Close),
        _ => match frame.to_request() {
            Ok(request) => on_request(state, &request, secret, server, exe_path),
            Err(e) => (
                SessionState::Closed,
                Action::ReplyAndClose(Response::Error(e.message())),
            ),
        },
    }
}

/// Goes on after a [`Action::Load`]: `content` is what was read of the
/// file, or `None` where it could not be read.
pub fn on_loaded(
    state: SessionState,
    server: &mut ServerState,
    key: &str,
    content: Option<&[u8]>,
) -> (r: (SessionState, Action))
    requires
        old(server).wf(),
    ensures
        final(server).wf(),
        final(server)@ == loaded_step(state, old(server)@, key@, content_view(content)).0,
        r.0 == loaded_step(state, old(server)@, key@, content_view(content)).1,
        r.1@ == loaded_step(state, old(server)@, key@, content_view(content)).2,
{
    match state {
        SessionState::Authenticated(true) => match content {
            Some(bytes) => match server.store(key, bytes) {
                Some(packed) => (state, Action::Reply(Response::File(packed))),
                None => (SessionState::Closed, Action::Close),
            },
            None => (SessionState::Closed, Action::Close),
        },
        _ => (SessionState::Closed, Action::Close),
    }
}

/// The bytes of what was read, if anything was.
pub open spec fn content_view(content: Option<&[u8]>) -> Option<Seq<u8>> {
    match content {
        Some(bytes) => Some(bytes@),
        None => None,
    }
}

// ------------------------------------------------------------ laws

/// A session that has presented no secret is refused every request but
/// `Auth`: the answer is the error `auth required`, and the session is
/// over.
pub proof fn law_refused_without_auth(
    request: RequestView,
    secret: Seq<char>,
    server: ServerView,
    exe_path: Seq<char>,
)
    requires
        !(request is Auth),
    ensures
        step(SessionState::Unauthenticated, request, secret, server, exe_path) == (
            SessionState::Closed,
            ActionView::ReplyAndClose(auth_required()),
        ),
{
}

/// A session that has presented a wrong secret is told so, and is then
/// refused every request but `Auth` as one that presented none.
pub proof fn law_refused_after_wrong_key(
    key: Seq<char>,
    request: RequestView,
    secret: Seq<char>,
    server: ServerView,
    exe_path: Seq<char>,
)
    requires
        key != secret,
        !(request is Auth),
    ensures
        ({
            let first = step(
                SessionState::Unauthenticated,
                RequestView::Auth(key),
                secret,
                server,
                exe_path,
            );
            &&& first == (
                SessionState::Authenticated(false),
                ActionView::Reply(ResponseView::Auth(false)),
            )
            &&& step(first.0, request, secret, server, exe_path) == (
                SessionState::Closed,
                ActionView::ReplyAndClose(auth_required()),
            )
        }),
{
}

/// A session that has presented the secret is told so, and is then given
/// the current snapshot when it asks for it.
pub proof fn law_snapshot_after_right_key(
    secret: Seq<char>,
    server: ServerView,
    exe_path: Seq<char>,
)
    ensures
        ({
            let first = step(
                SessionState::Unauthenticated,
                RequestView::Auth(secret),
                secret,
                server,
                exe_path,
            );
            &&& first == (
                SessionState::Authenticated(true),
                ActionView::Reply(ResponseView::Auth(true)),
            )
            &&& step(first.0, RequestView::GetDirInfo, secret, server, exe_path) == (
                SessionState::Authenticated(true),
                ActionView::Reply(ResponseView::DirInfo(server.info.dir_info)),
            )
        }),
{
}

/// A request for content that the cache does not hold has the file read
/// once; once that content was read and compressed, a second request for
/// the same key is answered with the same bytes from the cache, and no
/// file is read for it.
pub proof fn law_second_request_is_served_from_cache(
    server: ServerView,
    key: Seq<char>,
    path: Seq<char>,
    content: Seq<u8>,
    secret: Seq<char>,
    exe_path: Seq<char>,
)
    requires
        !server.cache.contains_key(key),
        served_path(server.info, exe_path, key) == Some(path),
        deflated(content) is Some,
    ensures
        ({
            let open = SessionState::Authenticated(true);
            let packed = deflated(content).unwrap();
            let first = step(open, RequestView::GetFile(key), secret, server, exe_path);
            let loaded = loaded_step(first.0, server, key, Some(content));
            &&& first == (open, ActionView::Load { key, path })
            &&& loaded.2 == ActionView::Reply(ResponseView::File(packed))
            &&& step(loaded.1, RequestView::GetFile(key), secret, loaded.0, exe_path) == (
                open,
                ActionView::Reply(ResponseView::File(packed)),
            )
        }),
{
}

/// After a new snapshot is installed, whatever was cached before, a
/// request for the hash of one of its files is answered from the new
/// snapshot, and a request for the file's content has the file read anew
/// and is answered with what was read then.
pub proof fn law_install_invalidates(
    info: UpdateView,
    key: Seq<char>,
    content: Seq<u8>,
    secret: Seq<char>,
    exe_path: Seq<char>,
)
    requires
        key != self_key(),
        file_map(info.dir_info).contains_key(key),
        deflated(content) is Some,
    ensures
        ({
            let open = SessionState::Authenticated(true);
            let file = file_map(info.dir_info)[key];
            &&& step(open, RequestView::GetFileHash(key), secret, installed(info), exe_path).1
                == ActionView::Reply(ResponseView::FileHash(file.hash))
            &&& step(open, RequestView::GetFile(key), secret, installed(info), exe_path).1
                == (ActionView::Load { key, path: joined(info.target_dir, file.path) })
            &&& loaded_step(open, installed(info), key, Some(content)).2 == ActionView::Reply(
                ResponseView::File(deflated(content).unwrap()),
            )
        }),
{
}

} // verus!
