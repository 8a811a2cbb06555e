//! The client's decisions during a sync run.
//!
//! A run is a strict sequence of a request and its response: the secret is
//! presented, the server's hash of the executable is compared with the
//! client's own, a newer executable is fetched where they differ, and else
//! the snapshot is fetched and every file of it that the local directory
//! lacks, or holds with another content, is fetched after it. The machine
//! decides; whoever runs it talks to the server and to the disk.

use crate::fileinfo::{DirInfo, DirView, FileInfo, FileView};
use crate::format::{duration_text, human_duration, human_size, size_text};
use crate::index::{diff, file_map, index_entries, needed, ref_views, FileIndex};
use crate::protocol::{debug_quote, debug_quoted, Request, RequestView, Response, ResponseView};
use crate::server::self_key;
use crate::text::{decimal, push_decimal, str_eq};
use std::sync::Arc;
use vstd::prelude::*;
use vstd::string::*;

verus! {

// ------------------------------------------------------------ the run

/// Where the client stands in its run: which response it waits for.
#[derive(Clone, Copy, Debug, PartialEq, Eq)]
pub enum ClientState {
    /// The secret was presented.
    AwaitAuth,
    /// The server's hash of the executable was asked for.
    AwaitSelfHash,
    /// The server's executable was asked for.
    AwaitSelfBinary,
    /// The snapshot was asked for.
    AwaitDirInfo,
    /// Nothing more is asked of the server by this machine.
    Done,
}

/// What is to be done next.
#[derive(Debug, PartialEq, Eq)]
pub enum ClientAction {
    /// Send the request and hand its response to [`on_response`].
    Send(Request),
    /// Tell the user what the server said, and end the run.
    Report(String),
    /// End the run as failed, with this message.
    Fail(String),
    /// Put the executable, which these bytes hold compressed, in the place
    /// of the running one, start it, and end the run.
    ReplaceSelf(Arc<Vec<u8>>),
    /// Bring the local directory up to this snapshot.
    Sync(DirInfo),
    /// End the run.
    Finish,
}

/// The model of a [`ClientAction`].
pub ghost enum ClientActionView {
    Send(RequestView),
    Report(Seq<char>),
    Fail(Seq<char>),
    ReplaceSelf(Seq<u8>),
    Sync(DirView),
    Finish,
}

impl View for ClientAction {
    type V = ClientActionView;

    open spec fn view(&self) -> ClientActionView {
        match self {
            ClientAction::Send(r) => ClientActionView::Send(r@),
            ClientAction::Report(m) => ClientActionView::Report(m@),
            ClientAction::Fail(m) => ClientActionView::Fail(m@),
            ClientAction::ReplaceSelf(b) => ClientActionView::ReplaceSelf(b@),
            ClientAction::Sync(d) => ClientActionView::Sync(d@),
            ClientAction::Finish => ClientActionView::Finish,
        }
    }
}

/// The client's next state and what is to be done, for a response received
/// in `state`, where `own_hash` is the hash of the running executable.
pub open spec fn client_step(state: ClientState, response: ResponseView, own_hash: Seq<char>) -> (
    ClientState,
    ClientActionView,
) {
    match state {
        ClientState::AwaitAuth => match response {
            ResponseView::Error(message) => (ClientState::Done, ClientActionView::Report(message)),
            _ => (
                ClientState::AwaitSelfHash,
                ClientActionView::Send(RequestView::GetFileHash(self_key())),
            ),
        },
        ClientState::AwaitSelfHash => match response {
            ResponseView::FileHash(hash) => if hash != own_hash {
                (
                    ClientState::AwaitSelfBinary,
                    ClientActionView::Send(RequestView::GetFile(self_key())),
                )
            } else {
                (ClientState::AwaitDirInfo, ClientActionView::Send(RequestView::GetDirInfo))
            },
            ResponseView::Error(message) => (ClientState::Done, ClientActionView::Fail(message)),
            _ => (ClientState::Done, ClientActionView::Fail("unexpected response"@)),
        },
        ClientState::AwaitSelfBinary => match response {
            ResponseView::File(bytes) => (ClientState::Done, ClientActionView::ReplaceSelf(bytes)),
            _ => (ClientState::AwaitDirInfo, ClientActionView::Send(RequestView::GetDirInfo)),
        },
        ClientState::AwaitDirInfo => match response {
            ResponseView::DirInfo(tree) => (ClientState::Done, ClientActionView::Sync(tree)),
            _ => (ClientState::Done, ClientActionView::Finish),
        },
        ClientState::Done => (ClientState::Done, ClientActionView::Finish),
    }
}

fn self_request_key() -> (r: String)
    ensures
        r@ == self_key(),
{
    proof {
        reveal_strlit("self");
    }
    let r = "self".to_owned();
    assert(r@ =~= self_key());
    r
}

/// Begins a run: the secret is presented.
pub fn start(auth_key: &str) -> (r: (ClientState, ClientAction))
    ensures
        r.0 == ClientState::AwaitAuth,
        r.1@ == ClientActionView::Send(RequestView::Auth(auth_key@)),
{
    (ClientState::AwaitAuth, ClientAction::Send(Request::Auth(auth_key.to_owned())))
}

/// Decides what to do about `response`, received in `state`.
pub fn on_response(state: ClientState, response: Response, own_hash: &str) -> (r: (
    ClientState,
    ClientAction,
))
    ensures
        r.0 == client_step(state, response@, own_hash@).0,
        r.1@ == client_step(state, response@, own_hash@).1,
{
    match state {
        ClientState::AwaitAuth => match response {
            Response::Error(message) => (ClientState::Done, ClientAction::Report(message)),
            _ => (
                ClientState::AwaitSelfHash,
                ClientAction::Send(Request::GetFileHash(self_request_key())),
            ),
        },
        ClientState::AwaitSelfHash => match response {
            Response::FileHash(hash) => if !str_eq(hash.as_str(), own_hash) {
                (
                    ClientState::AwaitSelfBinary,
                    ClientAction::Send(Request::GetFile(self_request_key())),
                )
            } else {
                (ClientState::AwaitDirInfo, ClientAction::Send(Request::GetDirInfo))
            },
            Response::Error(message) => (ClientState::Done, ClientAction::Fail(message)),
            _ => (ClientState::Done, ClientAction::Fail("unexpected response".to_owned())),
        },
        ClientState::AwaitSelfBinary => match response {
            Response::File(bytes) => (ClientState::Done, ClientAction::ReplaceSelf(bytes)),
            _ => (ClientState::AwaitDirInfo, ClientAction::Send(Request::GetDirInfo)),
        },
        ClientState::AwaitDirInfo => match response {
            Response::DirInfo(tree) => (ClientState::Done, ClientAction::Sync(tree)),
            _ => (ClientState::Done, ClientAction::Finish),
        },
        ClientState::Done => (ClientState::Done, ClientAction::Finish),
    }
}

// ------------------------------------------------------------ replacing the executable

/// The name under which the running executable is kept when a new one
/// takes its place: its name, the time in milliseconds since the epoch,
/// and `bak`, with dots between them.
pub open spec fn backup_name_text(name: Seq<char>, epoch_millis: nat) -> Seq<char> {
    name + "."@ + decimal(epoch_millis) + ".bak"@
}

/// The name under which the running executable is kept.
pub fn backup_name(name: &str, epoch_millis: u128) -> (r: String)
    ensures
        r@ == backup_name_text(name@, epoch_millis as nat),
{
    let mut out = name.to_owned();
    out.append(".");
    push_decimal(&mut out, epoch_millis);
    out.append(".bak");
    out
}

/// The arguments with which the new executable is started: those of this
/// run.
pub open spec fn respawn_args_text(
    server: Seq<char>,
    dir: Seq<char>,
    verbose: bool,
    dry_run: bool,
) -> Seq<Seq<char>> {
    seq!["sync"@, "-s"@, server, "-d"@, dir] + (if verbose {
        seq!["-v"@]
    } else {
        Seq::empty()
    }) + (if dry_run {
        seq!["--dry-run"@]
    } else {
        Seq::empty()
    })
}

/// The texts of a list of strings.
pub open spec fn texts(v: Seq<String>) -> Seq<Seq<char>> {
    Seq::new(v.len(), |i: int| v[i]@)
}

/// The arguments with which the new executable is started.
pub fn respawn_args(server: &str, dir: &str, verbose: bool, dry_run: bool) -> (r: Vec<String>)
    ensures
        texts(r@) == respawn_args_text(server@, dir@, verbose, dry_run),
{
    let mut args: Vec<String> = Vec::new();
    args.push("sync".to_owned());
    args.push("-s".to_owned());
    args.push(server.to_owned());
    args.push("-d".to_owned());
    args.push(dir.to_owned());
    if verbose {
        args.push("-v".to_owned());
    }
    if dry_run {
        args.push("--dry-run".to_owned());
    }
    assert(texts(args@) =~= respawn_args_text(server@, dir@, verbose, dry_run));
    args
}

// ------------------------------------------------------------ fetching files

/// Whether a file must be fetched, given the content hash of the local
/// file at its place, or `None` where there is no such file or it cannot
/// be read.
pub open spec fn must_fetch(local_hash: Option<Seq<char>>, f: FileView) -> bool {
    match local_hash {
        None => true,
        Some(hash) => hash != f.hash,
    }
}

/// Those of `entries`, in order, that must be fetched, where `probes`
/// holds for each entry what was found at its place.
pub open spec fn probed(entries: Seq<FileView>, probes: Seq<Option<Seq<char>>>) -> Seq<FileView>
    decreases entries.len(),
{
    if entries.len() == 0 {
        Seq::empty()
    } else if must_fetch(probes[entries.len() - 1], entries.last()) {
        probed(entries.drop_last(), probes).push(entries.last())
    } else {
        probed(entries.drop_last(), probes)
    }
}

/// The model of what was found at the place of each entry.
pub open spec fn probe_views(probes: Seq<Option<String>>) -> Seq<Option<Seq<char>>> {
    Seq::new(
        probes.len(),
        |i: int|
            match probes[i] {
                Some(hash) => Some(hash@),
                None => None,
            },
    )
}

/// What would be found at the place of each of `entries` in a local
/// directory whose flattened map is `local`.
pub open spec fn probes_of(local: Map<Seq<char>, FileView>, entries: Seq<FileView>) -> Seq<
    Option<Seq<char>>,
> {
    Seq::new(
        entries.len(),
        |i: int|
            if local.contains_key(entries[i].path_hash) {
                Some(local[entries[i].path_hash].hash)
            } else {
                None
            },
    )
}

/// Looking at the local files one by one gives the same files to fetch as
/// the diff of the local tree against the base.
pub proof fn law_probing_agrees_with_diff(local: DirView, base: DirView)
    ensures
        probed(index_entries(base), probes_of(file_map(local), index_entries(base))) == diff(
            local,
            base,
        ),
{
    lemma_probing(file_map(local), index_entries(base), index_entries(base).len() as int);
    assert(index_entries(base).take(index_entries(base).len() as int) =~= index_entries(base));
}

proof fn lemma_probing(local: Map<Seq<char>, FileView>, entries: Seq<FileView>, n: int)
    requires
        0 <= n <= entries.len(),
    ensures
        probed(entries.take(n), probes_of(local, entries)) == needed(local, entries.take(n)),
    decreases n,
{
    if n > 0 {
        lemma_probing(local, entries, n - 1);
        assert(entries.take(n).drop_last() =~= entries.take(n - 1));
        assert(entries.take(n).last() == entries[n - 1]);
    }
}

/// Whether `file` must be fetched, given the content hash of the local
/// file at its place.
pub fn needs_fetch(local_hash: &Option<String>, file: &FileInfo) -> (r: bool)
    ensures
        r == must_fetch(
            match local_hash {
                Some(hash) => Some(hash@),
                None => None,
            },
            file@,
        ),
{
    match local_hash {
        None => true,
        Some(hash) => !str_eq(hash.as_str(), file.hash.as_str()),
    }
}

/// The files of the snapshot's index that must be fetched, in the order of
/// the index, where `probes` holds for each entry of the index the content
/// hash of the local file at its place.
pub fn plan_fetch<'a>(index: &FileIndex<'a>, probes: &Vec<Option<String>>) -> (r: Vec<
    &'a FileInfo,
>)
    requires
        probes@.len() == index.listing().len(),
    ensures
        ref_views(r@) == probed(index.listing(), probe_views(probes@)),
{
    let mut plan: Vec<&'a FileInfo> = Vec::new();
    let mut i: usize = 0;
    assert(index.listing().take(0) =~= Seq::<FileView>::empty());
    assert(ref_views(plan@) =~= Seq::<FileView>::empty());
    while i < index.len()
        invariant
            i <= index.listing().len(),
            probes@.len() == index.listing().len(),
            ref_views(plan@) == probed(index.listing().take(i as int), probe_views(probes@)),
        decreases index.listing().len() - i,
    {
        let f = index.entry(i);
        let fetch = needs_fetch(&probes[i], f);
        proof {
            let next = index.listing().take(i + 1);
            assert(next.drop_last() =~= index.listing().take(i as int));
            assert(next.last() == f@);
            assert(probe_views(probes@)[i as int] == match probes@[i as int] {
                Some(hash) => Some(hash@),
                None => None,
            });
        }
        if fetch {
            let ghost before = ref_views(plan@);
            plan.push(f);
            assert(ref_views(plan@) =~= before.push(f@));
        }
        i = i + 1;
    }
    assert(index.listing().take(i as int) =~= index.listing());
    plan
}

/// The sizes of `files` added up, and no more than a `u64` holds.
pub open spec fn total_size_of(files: Seq<FileView>) -> nat
    decreases files.len(),
{
    if files.len() == 0 {
        0
    } else {
        total_size_of(files.drop_last()) + files.last().size as nat
    }
}

/// `n`, or the largest `u64` where `n` is larger.
pub open spec fn capped(n: nat) -> u64 {
    if n > u64::MAX {
        u64::MAX
    } else {
        n as u64
    }
}

/// The number of bytes that a plan fetches; `u64::MAX` where the sum is
/// larger than that.
pub fn total_size(plan: &Vec<&FileInfo>) -> (r: u64)
    ensures
        r == capped(total_size_of(ref_views(plan@))),
{
    let mut total: u64 = 0;
    let mut i: usize = 0;
    assert(ref_views(plan@).take(0) =~= Seq::<FileView>::empty());
    while i < plan.len()
        invariant
            i <= plan@.len(),
            total == capped(total_size_of(ref_views(plan@).take(i as int))),
        decreases plan@.len() - i,
    {
        proof {
            let next = ref_views(plan@).take(i + 1);
            assert(next.drop_last() =~= ref_views(plan@).take(i as int));
            assert(next.last() == plan@[i as int]@);
        }
        total = total.saturating_add(plan[i].size);
        i = i + 1;
    }
    assert(ref_views(plan@).take(i as int) =~= ref_views(plan@));
    total
}

// ------------------------------------------------------------ what the user is told

/// The line that a dry run writes for a file that it would fetch.
pub open spec fn dry_run_text(f: FileView) -> Seq<char> {
    "get file: "@ + debug_quoted(f.path) + " ("@ + size_text(f.size) + ")"@
}

/// The line that a dry run writes for `file`.
pub fn dry_run_line(file: &FileInfo) -> (r: String)
    ensures
        r@ == dry_run_text(file@),
{
    let mut out = "get file: ".to_owned();
    out.append(debug_quote(file.path.as_str()).as_str());
    out.append(" (");
    out.append(human_size(file.size).as_str());
    out.append(")");
    out
}

/// The line that a verbose run writes for a file that it has fetched in
/// `millis` milliseconds.
pub open spec fn download_text(f: FileView, millis: nat) -> Seq<char> {
    "download "@ + f.path + " ("@ + size_text(f.size) + ") in "@ + duration_text(millis)
}

/// The line that a verbose run writes for `file`, fetched in `millis`
/// milliseconds.
pub fn download_line(file: &FileInfo, millis: u128) -> (r: String)
    ensures
        r@ == download_text(file@, millis as nat),
{
    let mut out = "download ".to_owned();
    out.append(file.path.as_str());
    out.append(" (");
    out.append(human_size(file.size).as_str());
    out.append(") in ");
    out.append(human_duration(millis).as_str());
    out
}

/// The line that ends a run which took `millis` milliseconds and fetched,
/// or would have fetched, `total` bytes.
pub open spec fn summary_text(total: u64, millis: nat) -> Seq<char> {
    "total size: "@ + debug_quoted(size_text(total)) + ", done in "@ + duration_text(millis)
        + "."@
}

/// The line that ends a run.
pub fn summary_line(total: u64, millis: u128) -> (r: String)
    ensures
        r@ == summary_text(total, millis as nat),
{
    let mut out = "total size: ".to_owned();
    out.append(debug_quote(human_size(total).as_str()).as_str());
    out.append(", done in ");
    out.append(human_duration(millis).as_str());
    out.append(".");
    out
}

/// One step of bringing the local directory up to date.
#[derive(Debug, PartialEq, Eq)]
pub enum SyncStep {
    /// Tell the user this line; nothing is fetched.
    Announce(String),
    /// Send the request, which asks for the file's content, and write
    /// what comes back, decompressed, to the file's path.
    Fetch(Request),
}

/// The model of a [`SyncStep`].
pub ghost enum SyncStepView {
    Announce(Seq<char>),
    Fetch(RequestView),
}

impl View for SyncStep {
    type V = SyncStepView;

    open spec fn view(&self) -> SyncStepView {
        match self {
            SyncStep::Announce(line) => SyncStepView::Announce(line@),
            SyncStep::Fetch(request) => SyncStepView::Fetch(request@),
        }
    }
}

/// The step for a file of the plan: a dry run only tells its line; any
/// other run asks for the file's content by the file's identifier.
pub open spec fn sync_step_of(f: FileView, dry_run: bool) -> SyncStepView {
    if dry_run {
        SyncStepView::Announce(dry_run_text(f))
    } else {
        SyncStepView::Fetch(RequestView::GetFile(f.path_hash))
    }
}

/// The step for `file`, which the plan holds.
pub fn sync_step(file: &FileInfo, dry_run: bool) -> (r: SyncStep)
    ensures
        r@ == sync_step_of(file@, dry_run),
{
    if dry_run {
        SyncStep::Announce(dry_run_line(file))
    } else {
        SyncStep::Fetch(Request::GetFile(file.path_hash.clone()))
    }
}

} // verus!
