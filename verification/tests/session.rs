use dirsync::client::{
    backup_name, download_line, dry_run_line, needs_fetch, on_response, plan_fetch, respawn_args,
    start, summary_line, sync_step, total_size, ClientAction, ClientState, SyncStep,
};
use dirsync::compress::{compress_bytes, decompress_bytes};
use dirsync::fileinfo::{DirInfo, FileInfo};
use dirsync::hashing::{content_hash, path_hash};
use dirsync::protocol::{Error, Frame, Request, Response};
use dirsync::server::{
    is_self_key, should_rebuild, ChangeKind, ContentCache, ServerState, UpdateInfo, DEBOUNCE_SECONDS,
};
use dirsync::session::{on_frame, on_io_failure, on_loaded, on_request, open_session, Action, SessionState};
use std::sync::Arc;

const SECRET: &str = "friday";
const EXE: &str = "/opt/dirsync/dirsync";

/// The watched directory `/srv/data` with `a.txt` and `sub/b.txt`.
fn scan(a: &[u8], b: &[u8]) -> DirInfo {
    DirInfo {
        path: "/srv/data".to_string(),
        files: vec![FileInfo::new("/srv/data/a.txt", "a.txt", a.len() as u64, 1, a)],
        subdirs: vec![DirInfo {
            path: "/srv/data/sub".to_string(),
            files: vec![FileInfo::new("/srv/data/sub/b.txt", "b.txt", b.len() as u64, 2, b)],
            subdirs: vec![],
        }],
    }
}

fn snapshot(a: &[u8], b: &[u8]) -> UpdateInfo {
    UpdateInfo::new("/srv/data", scan(a, b), content_hash(b"the server's executable"))
}

fn server() -> ServerState {
    ServerState::new(snapshot(b"hi", b"there"))
}

fn auth_required() -> Action {
    Action::ReplyAndClose(Response::Error("auth required".to_string()))
}

fn signed_in(server: &ServerState) -> SessionState {
    let (state, action) =
        on_request(open_session(), &Request::Auth(SECRET.to_string()), SECRET, server, EXE);
    assert_eq!(action, Action::Reply(Response::Auth(true)));
    assert_eq!(state, SessionState::Authenticated(true));
    state
}

#[test]
fn a_snapshot_is_built_from_a_scan() {
    let info = snapshot(b"hi", b"there");
    assert_eq!(info.target_dir(), "/srv/data");
    assert_eq!(info.exe_hash(), content_hash(b"the server's executable"));
    assert_eq!(info.dir_info().path, "");
    assert_eq!(info.dir_info().files[0].path, "a.txt");
    assert_eq!(info.dir_info().subdirs[0].files[0].path, "sub/b.txt");
    assert_eq!(info.file(&path_hash("sub/b.txt")).unwrap().name, "b.txt");
    assert_eq!(info.file(&path_hash("sub/b.txt")).unwrap().path, "sub/b.txt");
    assert!(info.file("self").is_none());
}

#[test]
fn hashes_are_looked_up_by_identifier() {
    let info = snapshot(b"hi", b"there");
    assert_eq!(info.get_file_hash("self"), Ok(content_hash(b"the server's executable")));
    assert_eq!(info.get_file_hash(&path_hash("a.txt")), Ok(content_hash(b"hi")));
    assert_eq!(info.get_file_hash(&path_hash("sub/b.txt")), Ok(content_hash(b"there")));
    assert_eq!(info.get_file_hash("nope"), Err(Error::NotFound("nope".to_string())));
    assert_eq!(info.get_file_hash(""), Err(Error::NotFound("".to_string())));
    assert!(is_self_key("self"));
    assert!(!is_self_key("Self"));
    assert!(!is_self_key("self "));
}

#[test]
fn paths_to_read_are_looked_up_by_identifier() {
    let info = snapshot(b"hi", b"there");
    assert_eq!(info.get_file_path("self", EXE), Ok(EXE.to_string()));
    assert_eq!(
        info.get_file_path(&path_hash("sub/b.txt"), EXE),
        Ok("/srv/data/sub/b.txt".to_string())
    );
    assert_eq!(info.get_file_path(&path_hash("a.txt"), EXE), Ok("/srv/data/a.txt".to_string()));
    assert_eq!(info.get_file_path("nope", EXE), Err(Error::NotFound("nope".to_string())));
}

#[test]
fn the_cache_keeps_one_content_for_each_key() {
    let mut cache = ContentCache::new();
    assert_eq!(cache.get("a"), None);
    cache.insert("a", Arc::new(vec![1]));
    cache.insert("b", Arc::new(vec![2]));
    assert_eq!(cache.get("a"), Some(Arc::new(vec![1])));
    assert_eq!(cache.get("b"), Some(Arc::new(vec![2])));
    cache.insert("a", Arc::new(vec![3]));
    assert_eq!(cache.get("a"), Some(Arc::new(vec![3])));
    assert_eq!(cache.get("b"), Some(Arc::new(vec![2])));
    assert_eq!(cache.get("c"), None);
    cache.clear();
    assert_eq!(cache.get("a"), None);
    assert_eq!(cache.get("b"), None);
}

#[test]
fn a_request_without_auth_ends_the_session() {
    let server = server();
    let requests = vec![
        Request::GetDirInfo,
        Request::GetFileHash("self".to_string()),
        Request::GetFile(path_hash("a.txt")),
    ];
    for request in requests {
        let (state, action) = on_request(open_session(), &request, SECRET, &server, EXE);
        assert_eq!(state, SessionState::Closed);
        assert_eq!(action, auth_required());
    }
}

#[test]
fn a_wrong_key_is_answered_and_then_refused() {
    let server = server();
    let (state, action) =
        on_request(open_session(), &Request::Auth("wrong".to_string()), SECRET, &server, EXE);
    assert_eq!(state, SessionState::Authenticated(false));
    assert_eq!(action, Action::Reply(Response::Auth(false)));
    let (state, action) = on_request(state, &Request::GetDirInfo, SECRET, &server, EXE);
    assert_eq!(state, SessionState::Closed);
    assert_eq!(action, auth_required());
    // the secret is compared byte for byte
    for near in ["Friday", "friday ", "", "frida"] {
        let (state, _) =
            on_request(open_session(), &Request::Auth(near.to_string()), SECRET, &server, EXE);
        assert_eq!(state, SessionState::Authenticated(false));
    }
}

#[test]
fn a_second_auth_decides_anew() {
    let server = server();
    let (state, _) =
        on_request(open_session(), &Request::Auth("wrong".to_string()), SECRET, &server, EXE);
    let (state, action) =
        on_request(state, &Request::Auth(SECRET.to_string()), SECRET, &server, EXE);
    assert_eq!(state, SessionState::Authenticated(true));
    assert_eq!(action, Action::Reply(Response::Auth(true)));
    let (state, action) =
        on_request(state, &Request::Auth("wrong".to_string()), SECRET, &server, EXE);
    assert_eq!(state, SessionState::Authenticated(false));
    assert_eq!(action, Action::Reply(Response::Auth(false)));
}

#[test]
fn the_right_key_opens_the_snapshot() {
    let server = server();
    let state = signed_in(&server);
    let (state, action) = on_request(state, &Request::GetDirInfo, SECRET, &server, EXE);
    assert_eq!(state, SessionState::Authenticated(true));
    let mut expected = scan(b"hi", b"there");
    expected.strip_root();
    assert_eq!(action, Action::Reply(Response::DirInfo(expected)));
}

#[test]
fn hashes_are_served_and_unknown_keys_reported() {
    let server = server();
    let state = signed_in(&server);
    let (state, action) =
        on_request(state, &Request::GetFileHash(path_hash("a.txt")), SECRET, &server, EXE);
    assert_eq!(action, Action::Reply(Response::FileHash(content_hash(b"hi"))));
    let (state, action) =
        on_request(state, &Request::GetFileHash("self".to_string()), SECRET, &server, EXE);
    assert_eq!(
        action,
        Action::Reply(Response::FileHash(content_hash(b"the server's executable")))
    );
    let (state, action) =
        on_request(state, &Request::GetFileHash("nope".to_string()), SECRET, &server, EXE);
    assert_eq!(action, Action::Reply(Response::Error("NotFound(\"nope\")".to_string())));
    // a key that is not found does not end the session
    assert_eq!(state, SessionState::Authenticated(true));
    let (state, action) =
        on_request(state, &Request::GetFile("nope".to_string()), SECRET, &server, EXE);
    assert_eq!(action, Action::Reply(Response::Error("NotFound(\"nope\")".to_string())));
    assert_eq!(state, SessionState::Authenticated(true));
}

#[test]
fn the_first_request_reads_the_file_and_the_second_does_not() {
    let mut server = server();
    let state = signed_in(&server);
    let id = path_hash("sub/b.txt");
    let (state, action) = on_request(state, &Request::GetFile(id.clone()), SECRET, &server, EXE);
    assert_eq!(action, Action::Load { key: id.clone(), path: "/srv/data/sub/b.txt".to_string() });
    assert_eq!(server.cached_content(&id), None);
    let (state, action) = on_loaded(state, &mut server, &id, Some(b"there"));
    let packed = Arc::new(compress_bytes(b"there").unwrap());
    assert_eq!(action, Action::Reply(Response::File(packed.clone())));
    assert_eq!(state, SessionState::Authenticated(true));
    // from now on the cache answers, with the same bytes
    let (_, action) = on_request(state, &Request::GetFile(id.clone()), SECRET, &server, EXE);
    assert_eq!(action, Action::Reply(Response::File(packed.clone())));
    let (_, action) = on_request(state, &Request::GetFile(id.clone()), SECRET, &server, EXE);
    assert_eq!(action, Action::Reply(Response::File(packed)));
    // another key is still read
    let (_, action) =
        on_request(state, &Request::GetFile(path_hash("a.txt")), SECRET, &server, EXE);
    assert_eq!(
        action,
        Action::Load { key: path_hash("a.txt"), path: "/srv/data/a.txt".to_string() }
    );
}

#[test]
fn the_servers_executable_is_served_under_self() {
    let mut server = server();
    let state = signed_in(&server);
    let (state, action) =
        on_request(state, &Request::GetFile("self".to_string()), SECRET, &server, EXE);
    assert_eq!(action, Action::Load { key: "self".to_string(), path: EXE.to_string() });
    let (state, action) = on_loaded(state, &mut server, "self", Some(b"ELF..."));
    assert_eq!(
        action,
        Action::Reply(Response::File(Arc::new(compress_bytes(b"ELF...").unwrap())))
    );
    let (_, action) =
        on_request(state, &Request::GetFile("self".to_string()), SECRET, &server, EXE);
    assert_eq!(
        action,
        Action::Reply(Response::File(Arc::new(compress_bytes(b"ELF...").unwrap())))
    );
}

#[test]
fn a_file_that_cannot_be_read_ends_the_session() {
    let mut server = server();
    let state = signed_in(&server);
    let id = path_hash("a.txt");
    let (state, action) = on_loaded(state, &mut server, &id, None);
    assert_eq!(state, SessionState::Closed);
    assert_eq!(action, Action::Close);
    assert_eq!(server.cached_content(&id), None);
}

#[test]
fn a_new_snapshot_empties_the_cache() {
    let mut server = server();
    let state = signed_in(&server);
    let id = path_hash("a.txt");
    let (state, _) = on_loaded(state, &mut server, &id, Some(b"hi"));
    assert!(server.cached_content(&id).is_some());
    // the file changes on disk and the directory is scanned again
    server.install(snapshot(b"hello", b"there"));
    assert_eq!(server.cached_content(&id), None);
    let (state, action) =
        on_request(state, &Request::GetFileHash(id.clone()), SECRET, &server, EXE);
    assert_eq!(action, Action::Reply(Response::FileHash(content_hash(b"hello"))));
    let (state, action) = on_request(state, &Request::GetFile(id.clone()), SECRET, &server, EXE);
    assert_eq!(action, Action::Load { key: id.clone(), path: "/srv/data/a.txt".to_string() });
    let (_, action) = on_loaded(state, &mut server, &id, Some(b"hello"));
    match action {
        Action::Reply(Response::File(bytes)) => {
            assert_eq!(decompress_bytes(&bytes), Some(b"hello".to_vec()));
        }
        other => panic!("{:?}", other),
    }
    // the hash of the executable is the new snapshot's too
    server.install(UpdateInfo::new("/srv/data", scan(b"hi", b"there"), "beef".to_string()));
    assert_eq!(server.info().get_file_hash("self"), Ok("beef".to_string()));
}

#[test]
fn a_batch_of_changes_is_acted_on_once_the_paths_are_quiet() {
    assert_eq!(DEBOUNCE_SECONDS, 10);
    assert!(should_rebuild(&vec![ChangeKind::Any]));
    assert!(should_rebuild(&vec![ChangeKind::Any, ChangeKind::Any]));
    assert!(should_rebuild(&vec![]));
    assert!(!should_rebuild(&vec![ChangeKind::AnyContinuous]));
    assert!(!should_rebuild(&vec![ChangeKind::Any, ChangeKind::AnyContinuous, ChangeKind::Any]));
}

#[test]
fn a_big_snapshot_is_served_by_identifier() {
    let files: Vec<FileInfo> = (0..3000)
        .map(|i| {
            let name = format!("f{}.dat", i);
            FileInfo::new(&format!("/srv/data/{}", name), &name, 1, 0, name.as_bytes())
        })
        .collect();
    let info = UpdateInfo::new(
        "/srv/data",
        DirInfo { path: "/srv/data".to_string(), files, subdirs: vec![] },
        "e".to_string(),
    );
    for i in (0..3000).step_by(97) {
        let name = format!("f{}.dat", i);
        assert_eq!(info.get_file_hash(&path_hash(&name)), Ok(content_hash(name.as_bytes())));
        assert_eq!(info.get_file_path(&path_hash(&name), EXE), Ok(format!("/srv/data/{}", name)));
    }
    assert_eq!(info.dir_info().flat_hashes().len(), 3000);
}

#[test]
fn a_closed_session_does_nothing_more() {
    let mut server = server();
    let all = vec![
        Request::Auth(SECRET.to_string()),
        Request::GetDirInfo,
        Request::GetFileHash("self".to_string()),
        Request::GetFile("self".to_string()),
    ];
    for request in all {
        let (state, action) = on_request(SessionState::Closed, &request, SECRET, &server, EXE);
        assert_eq!(state, SessionState::Closed);
        assert_eq!(action, Action::Close);
    }
    for state in [
        SessionState::Closed,
        SessionState::Unauthenticated,
        SessionState::Authenticated(false),
    ] {
        let (state, action) = on_loaded(state, &mut server, "self", Some(b"x"));
        assert_eq!((state, action), (SessionState::Closed, Action::Close));
        assert_eq!(server.cached_content("self"), None);
    }
    assert_eq!(on_io_failure(SessionState::Authenticated(true)), SessionState::Closed);
    assert_eq!(on_io_failure(SessionState::Unauthenticated), SessionState::Closed);
}

#[test]
fn frames_drive_the_session() {
    let server = server();
    let frame = Frame::from_request(&Request::Auth(SECRET.to_string()));
    let (state, action) = on_frame(open_session(), &frame, SECRET, &server, EXE);
    assert_eq!(state, SessionState::Authenticated(true));
    assert_eq!(action, Action::Reply(Response::Auth(true)));
    let frame = Frame::from_request(&Request::GetFileHash(path_hash("a.txt")));
    let (state, action) = on_frame(state, &frame, SECRET, &server, EXE);
    assert_eq!(action, Action::Reply(Response::FileHash(content_hash(b"hi"))));
    // a payload that is no request is answered and ends the session
    let junk = Frame::new(vec![0xde, 0xad]).unwrap();
    let (state, action) = on_frame(state, &junk, SECRET, &server, EXE);
    assert_eq!(state, SessionState::Closed);
    assert_eq!(action, Action::ReplyAndClose(Response::Error("BadRequest".to_string())));
    let (state, action) = on_frame(state, &frame, SECRET, &server, EXE);
    assert_eq!((state, action), (SessionState::Closed, Action::Close));
}

// ------------------------------------------------------------ the client

/// Runs the client's requests against the server in memory and returns the
/// machine's last action. Files that the server wants read come from
/// `disk`.
fn converse(
    server: &mut ServerState,
    own_hash: &str,
    disk: &dyn Fn(&str) -> Option<Vec<u8>>,
    sent: &mut Vec<Request>,
) -> ClientAction {
    let mut session = open_session();
    let (mut state, mut action) = start(SECRET);
    loop {
        let request = match action {
            ClientAction::Send(request) => request,
            last => return last,
        };
        sent.push(request.clone());
        let wire = Frame::from_request(&request);
        let (next, mut reply) = on_frame(session, &wire, SECRET, server, EXE);
        session = next;
        if let Action::Load { key, path } = reply {
            let content = disk(&path);
            let (next, loaded) = on_loaded(session, server, &key, content.as_deref());
            session = next;
            reply = loaded;
        }
        let response = match reply {
            Action::Reply(response) | Action::ReplyAndClose(response) => response,
            other => panic!("{:?}", other),
        };
        let received = Frame::from_response(&response).to_response().unwrap();
        let (next, then) = on_response(state, received, own_hash);
        state = next;
        action = then;
    }
}

fn disk(path: &str) -> Option<Vec<u8>> {
    match path {
        "/srv/data/a.txt" => Some(b"hi".to_vec()),
        "/srv/data/sub/b.txt" => Some(b"there".to_vec()),
        EXE => Some(b"the server's executable".to_vec()),
        _ => None,
    }
}

#[test]
fn a_run_starts_by_presenting_the_secret() {
    let (state, action) = start("friday");
    assert_eq!(state, ClientState::AwaitAuth);
    assert_eq!(action, ClientAction::Send(Request::Auth("friday".to_string())));
}

#[test]
fn the_client_steps_through_its_run() {
    let own = "abc";
    let (state, action) = on_response(ClientState::AwaitAuth, Response::Auth(true), own);
    assert_eq!(state, ClientState::AwaitSelfHash);
    assert_eq!(action, ClientAction::Send(Request::GetFileHash("self".to_string())));
    // a refused secret does not stop the client either; the server will
    let (state, _) = on_response(ClientState::AwaitAuth, Response::Auth(false), own);
    assert_eq!(state, ClientState::AwaitSelfHash);
    let (state, action) =
        on_response(ClientState::AwaitAuth, Response::Error("busy".to_string()), own);
    assert_eq!((state, action), (ClientState::Done, ClientAction::Report("busy".to_string())));

    let (state, action) =
        on_response(ClientState::AwaitSelfHash, Response::FileHash("abc".to_string()), own);
    assert_eq!(state, ClientState::AwaitDirInfo);
    assert_eq!(action, ClientAction::Send(Request::GetDirInfo));
    let (state, action) =
        on_response(ClientState::AwaitSelfHash, Response::FileHash("abd".to_string()), own);
    assert_eq!(state, ClientState::AwaitSelfBinary);
    assert_eq!(action, ClientAction::Send(Request::GetFile("self".to_string())));
    let (state, action) = on_response(
        ClientState::AwaitSelfHash,
        Response::Error("auth required".to_string()),
        own,
    );
    assert_eq!(
        (state, action),
        (ClientState::Done, ClientAction::Fail("auth required".to_string()))
    );
    let (state, action) = on_response(ClientState::AwaitSelfHash, Response::Auth(true), own);
    assert_eq!(
        (state, action),
        (ClientState::Done, ClientAction::Fail("unexpected response".to_string()))
    );

    let bytes = Arc::new(vec![1, 2, 3]);
    let (state, action) =
        on_response(ClientState::AwaitSelfBinary, Response::File(bytes.clone()), own);
    assert_eq!((state, action), (ClientState::Done, ClientAction::ReplaceSelf(bytes)));
    let (state, action) =
        on_response(ClientState::AwaitSelfBinary, Response::Error("x".to_string()), own);
    assert_eq!(
        (state, action),
        (ClientState::AwaitDirInfo, ClientAction::Send(Request::GetDirInfo))
    );

    let tree = DirInfo { path: "".to_string(), files: vec![], subdirs: vec![] };
    let (state, action) =
        on_response(ClientState::AwaitDirInfo, Response::DirInfo(tree.clone()), own);
    assert_eq!((state, action), (ClientState::Done, ClientAction::Sync(tree)));
    let (state, action) =
        on_response(ClientState::AwaitDirInfo, Response::Error("x".to_string()), own);
    assert_eq!((state, action), (ClientState::Done, ClientAction::Finish));
    let (state, action) = on_response(ClientState::Done, Response::Auth(true), own);
    assert_eq!((state, action), (ClientState::Done, ClientAction::Finish));
}

#[test]
fn a_dry_run_announces_the_file_and_fetches_nothing() {
    let mut server = ServerState::new(UpdateInfo::new(
        "/srv/data",
        DirInfo {
            path: "/srv/data".to_string(),
            files: vec![FileInfo::new("/srv/data/a.txt", "a.txt", 2, 1, b"hi")],
            subdirs: vec![],
        },
        content_hash(b"the server's executable"),
    ));
    let mut sent = Vec::new();
    let own = content_hash(b"the server's executable");
    let mut tree = match converse(&mut server, &own, &disk, &mut sent) {
        ClientAction::Sync(tree) => tree,
        other => panic!("{:?}", other),
    };
    tree.set_all_file_paths("/home/me/copy");
    let index = tree.flat_hashes();
    // the local directory is empty
    let probes = vec![None];
    let plan = plan_fetch(&index, &probes);
    assert_eq!(plan.len(), 1);
    assert_eq!(plan[0].name, "a.txt");
    assert_eq!(plan[0].hash, content_hash(b"hi"));
    let steps: Vec<SyncStep> = plan.iter().map(|f| sync_step(f, true)).collect();
    assert_eq!(
        steps,
        vec![SyncStep::Announce("get file: \"/home/me/copy/a.txt\" (2 B)".to_string())]
    );
    assert_eq!(total_size(&plan), 2);
    assert!(sent.iter().all(|r| !matches!(r, Request::GetFile(_))));
    assert_eq!(
        sent,
        vec![
            Request::Auth(SECRET.to_string()),
            Request::GetFileHash("self".to_string()),
            Request::GetDirInfo
        ]
    );
}

#[test]
fn a_run_fetches_the_file_and_unpacks_it() {
    let mut server = ServerState::new(UpdateInfo::new(
        "/srv/data",
        DirInfo {
            path: "/srv/data".to_string(),
            files: vec![FileInfo::new("/srv/data/a.txt", "a.txt", 2, 1, b"hi")],
            subdirs: vec![],
        },
        content_hash(b"the server's executable"),
    ));
    let mut sent = Vec::new();
    let own = content_hash(b"the server's executable");
    let mut tree = match converse(&mut server, &own, &disk, &mut sent) {
        ClientAction::Sync(tree) => tree,
        other => panic!("{:?}", other),
    };
    tree.set_all_file_paths("/home/me/copy");
    let index = tree.flat_hashes();
    let plan = plan_fetch(&index, &vec![None]);
    let step = sync_step(plan[0], false);
    assert_eq!(step, SyncStep::Fetch(Request::GetFile(path_hash("a.txt"))));
    let request = match step {
        SyncStep::Fetch(request) => request,
        other => panic!("{:?}", other),
    };
    let session = SessionState::Authenticated(true);
    let (session, action) = on_request(session, &request, SECRET, &server, EXE);
    let (key, path) = match action {
        Action::Load { key, path } => (key, path),
        other => panic!("{:?}", other),
    };
    assert_eq!(path, "/srv/data/a.txt");
    let (_, action) = on_loaded(session, &mut server, &key, disk(&path).as_deref());
    let received = match action {
        Action::Reply(response) => Response::decode(&response.encode()),
        other => panic!("{:?}", other),
    };
    match received {
        Response::File(bytes) => {
            assert_ne!(bytes.as_slice(), b"hi");
            assert_eq!(decompress_bytes(&bytes), Some(b"hi".to_vec()));
        }
        other => panic!("{:?}", other),
    }
    assert_eq!(plan[0].path, "/home/me/copy/a.txt");
}

#[test]
fn a_newer_executable_takes_the_place_of_the_running_one() {
    let mut server = server();
    let mut sent = Vec::new();
    let old = content_hash(b"the client's older executable");
    let packed = match converse(&mut server, &old, &disk, &mut sent) {
        ClientAction::ReplaceSelf(bytes) => bytes,
        other => panic!("{:?}", other),
    };
    assert_eq!(
        sent,
        vec![
            Request::Auth(SECRET.to_string()),
            Request::GetFileHash("self".to_string()),
            Request::GetFile("self".to_string())
        ]
    );
    let fresh = decompress_bytes(&packed).unwrap();
    assert_eq!(fresh, b"the server's executable".to_vec());
    assert_eq!(backup_name("dirsync.exe", 1_700_000_000_123), "dirsync.exe.1700000000123.bak");
    assert_eq!(backup_name("dirsync", 0), "dirsync.0.bak");
    assert_eq!(
        respawn_args("host:9022", "C:\\data", true, true),
        vec!["sync", "-s", "host:9022", "-d", "C:\\data", "-v", "--dry-run"]
    );
    assert_eq!(respawn_args("h", ".", false, false), vec!["sync", "-s", "h", "-d", "."]);
    assert_eq!(respawn_args("h", ".", false, true), vec!["sync", "-s", "h", "-d", ".", "--dry-run"]);
    assert_eq!(respawn_args("h", ".", true, false), vec!["sync", "-s", "h", "-d", ".", "-v"]);
    // the process that is started next runs the new bytes and finds the hashes equal
    let mut sent = Vec::new();
    match converse(&mut server, &content_hash(&fresh), &disk, &mut sent) {
        ClientAction::Sync(_) => {}
        other => panic!("{:?}", other),
    }
    assert!(!sent.contains(&Request::GetFile("self".to_string())));
}

#[test]
fn a_client_with_the_wrong_secret_fails() {
    let mut server = server();
    let mut session = open_session();
    let (next, action) =
        on_request(session, &Request::Auth("guess".to_string()), SECRET, &server, EXE);
    session = next;
    let response = match action {
        Action::Reply(r) => r,
        other => panic!("{:?}", other),
    };
    let (state, action) = on_response(ClientState::AwaitAuth, response, "abc");
    let request = match action {
        ClientAction::Send(r) => r,
        other => panic!("{:?}", other),
    };
    let (session, action) = on_request(session, &request, SECRET, &server, EXE);
    assert_eq!(session, SessionState::Closed);
    let response = match action {
        Action::ReplyAndClose(r) => r,
        other => panic!("{:?}", other),
    };
    let (state, action) = on_response(state, response, "abc");
    assert_eq!(state, ClientState::Done);
    assert_eq!(action, ClientAction::Fail("auth required".to_string()));
    let (_, action) = on_loaded(session, &mut server, "self", Some(b"x"));
    assert_eq!(action, Action::Close);
}

#[test]
fn probing_agrees_with_the_diff() {
    let mut base = scan(b"hi", b"there");
    base.strip_root();
    // the local side has a.txt with other content and lacks sub/b.txt
    let mut local = DirInfo {
        path: "/home/me/copy".to_string(),
        files: vec![
            FileInfo::new("/home/me/copy/a.txt", "a.txt", 3, 9, b"old"),
            FileInfo::new("/home/me/copy/mine.txt", "mine.txt", 4, 9, b"mine"),
        ],
        subdirs: vec![],
    };
    local.strip_root();
    let index = base.flat_hashes();
    let ours = local.flat_hashes();
    let probes: Vec<Option<String>> = index
        .entries()
        .iter()
        .map(|f| ours.get(&f.path_hash).map(|mine| mine.hash.clone()))
        .collect();
    assert_eq!(probes, vec![Some(content_hash(b"old")), None]);
    let plan = plan_fetch(&index, &probes);
    assert_eq!(plan, local.diff_with(&base));
    assert_eq!(plan.len(), 2);
    assert_eq!(total_size(&plan), 7);
    // once both are in place nothing is left to fetch
    let probes = vec![Some(content_hash(b"hi")), Some(content_hash(b"there"))];
    assert!(plan_fetch(&index, &probes).is_empty());
    assert_eq!(total_size(&plan_fetch(&index, &probes)), 0);
}

#[test]
fn a_file_is_fetched_unless_the_local_hash_is_the_same() {
    let f = FileInfo::new("a", "a", 2, 0, b"hi");
    assert!(needs_fetch(&None, &f));
    assert!(needs_fetch(&Some("".to_string()), &f));
    assert!(needs_fetch(&Some(content_hash(b"ho")), &f));
    assert!(!needs_fetch(&Some(content_hash(b"hi")), &f));
}

#[test]
fn the_total_stops_at_the_largest_number() {
    let mut big = FileInfo::new("a", "a", u64::MAX - 1, 0, b"");
    let small = FileInfo::new("b", "b", 5, 0, b"");
    assert_eq!(total_size(&vec![&big, &small]), u64::MAX);
    big.size = 10;
    assert_eq!(total_size(&vec![&big, &small, &small]), 20);
    assert_eq!(total_size(&vec![]), 0);
}

#[test]
fn what_the_user_is_told() {
    let mut f = FileInfo::new("C:\\copy\\sub\\a.txt", "a.txt", 1536, 0, b"");
    assert_eq!(dry_run_line(&f), "get file: \"C:\\\\copy\\\\sub\\\\a.txt\" (1.50 KB)");
    assert_eq!(download_line(&f, 1234), "download C:\\copy\\sub\\a.txt (1.50 KB) in 1s 234ms ");
    f.path = "/copy/a.txt".to_string();
    f.size = 0;
    assert_eq!(dry_run_line(&f), "get file: \"/copy/a.txt\" (0 B)");
    assert_eq!(download_line(&f, 0), "download /copy/a.txt (0 B) in 0ms ");
    assert_eq!(summary_line(2048, 61_000), "total size: \"2.00 KB\", done in 1m 1s 0ms .");
    assert_eq!(summary_line(0, 5), "total size: \"0 B\", done in 5ms .");
}
