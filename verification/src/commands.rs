//! The commands that the user interface sends to the command loop, and the
//! decisions the loop takes on them.
use vstd::prelude::*;
use crate::json::{Json, JsonModel, json_is};
use crate::rpc::File;
use crate::text::{push_char, push_str, replace_all, replace_text, split_chars, split_text, strings_view,
    lemma_split_text_nonempty, text_lt, lemma_text_lt_irreflexive, text_eq, text_of};
use crate::tree::{build_tree, file_entries, forest_of, has_name, in_group, sums_fit};
use crate::requests::{
    all_model, all_torrents_request, command_model, command_request, details_model, free_space_model,
    free_space_request, info_field_names, recent_model, recent_torrents_request, session_stats_model,
    session_stats_request, texts, torrent_details_request, torrent_info_fields,
};

verus! {

/// A request to the command loop.
#[derive(Debug)]
pub enum TorrentCmd {
    /// Periodic refresh, with its sequence number.
    Tick(u64),
    /// Open the download folder of a torrent in the file manager.
    OpenDlDir(i64),
    /// Open a terminal in the download folder of a torrent.
    OpenDlTerm(i64),
    GetDetails(i64),
    QueueMoveUp(Vec<i64>),
    QueueMoveDown(Vec<i64>),
    QueueMoveTop(Vec<i64>),
    QueueMoveBottom(Vec<i64>),
    /// Remove torrents, and their data when the flag is set.
    Delete(Vec<i64>, bool),
    Start(Vec<i64>),
    StartNow(Vec<i64>),
    Stop(Vec<i64>),
    Verify(Vec<i64>),
    Reannounce(Vec<i64>),
    /// Move torrents to a location, moving the data when the flag is set.
    Move(Vec<i64>, String, bool),
    /// Download folder, magnet link or file name, base64 metainfo, start paused.
    AddTorrent(Option<String>, Option<String>, Option<String>, bool),
}

/// The program that opens a download folder.
#[derive(Clone, Copy, PartialEq, Eq, Structural, Debug)]
pub enum Opener {
    FileManager,
    Terminal,
}

/// What the loop does with the reply to a request.
#[derive(Clone, Copy, PartialEq, Eq, Structural, Debug)]
pub enum ReplyUse {
    /// The whole torrent list replaces the shown one.
    AllTorrents,
    /// The recently active torrents update the list, for refresh number `n`.
    RecentTorrents(u64),
    SessionStats,
    FreeSpace,
    /// The first torrent of the reply is shown in the details pane.
    Details,
    /// The download folder of the first torrent of the reply is opened.
    OpenFolder(Opener),
    /// The reply's result says whether a torrent was added.
    AddResult,
    Ignore,
}

/// A request of the loop and what to do with its reply.
pub struct Step {
    pub request: Json,
    pub reply: ReplyUse,
}

/// `steps` are the requests of `model`, in order, with their uses.
pub open spec fn steps_are(steps: Seq<Step>, model: Seq<(JsonModel, ReplyUse)>) -> bool {
    &&& steps.len() == model.len()
    &&& forall|i: int|
        0 <= i < steps.len() ==> json_is((#[trigger] steps[i]).request, model[i].0) && steps[i].reply
            == model[i].1
}

/// The requests of a refresh: the recently active torrents; every third
/// refresh the session statistics too; every sixtieth the free space of the
/// base download folder too.
pub open spec fn tick_model(n: u64, remote_base_dir: Seq<char>) -> Seq<(JsonModel, ReplyUse)> {
    seq![(recent_model(info_field_names()), ReplyUse::RecentTorrents(n))]
        + (if n % 3 == 0 { seq![(session_stats_model(), ReplyUse::SessionStats)] } else { seq![] })
        + (if n % 60 == 0 { seq![(free_space_model(remote_base_dir), ReplyUse::FreeSpace)] } else { seq![] })
}

/// The requests that the loop makes for a command.
pub open spec fn plan_model(cmd: TorrentCmd, remote_base_dir: Seq<char>) -> Seq<(JsonModel, ReplyUse)> {
    match cmd {
        TorrentCmd::Tick(n) => tick_model(n, remote_base_dir),
        TorrentCmd::GetDetails(id) => seq![(details_model(seq![id]), ReplyUse::Details)],
        TorrentCmd::OpenDlDir(id) => seq![(details_model(seq![id]), ReplyUse::OpenFolder(Opener::FileManager))],
        TorrentCmd::OpenDlTerm(id) => seq![(details_model(seq![id]), ReplyUse::OpenFolder(Opener::Terminal))],
        TorrentCmd::AddTorrent(..) => seq![(command_model(cmd).unwrap(), ReplyUse::AddResult)],
        _ => seq![(command_model(cmd).unwrap(), ReplyUse::Ignore)],
    }
}

fn push_step(steps: &mut Vec<Step>, request: Json, reply: ReplyUse, Ghost(m): Ghost<JsonModel>)
    requires
        json_is(request, m),
    ensures
        final(steps)@.len() == old(steps)@.len() + 1,
        forall|i: int| 0 <= i < old(steps)@.len() ==> #[trigger] final(steps)@[i] == old(steps)@[i],
        json_is(final(steps)@.last().request, m),
        final(steps)@.last().reply == reply,
{
    steps.push(Step { request, reply });
}

/// The requests of a refresh.
pub fn tick_steps(n: u64, remote_base_dir: &str) -> (r: Vec<Step>)
    ensures
        steps_are(r@, tick_model(n, remote_base_dir@)),
{
    let mut steps: Vec<Step> = Vec::new();
    let fields = torrent_info_fields();
    push_step(&mut steps, recent_torrents_request(&fields), ReplyUse::RecentTorrents(n),
        Ghost(recent_model(info_field_names())));
    let ghost m1 = seq![(recent_model(info_field_names()), ReplyUse::RecentTorrents(n))];
    assert(steps_are(steps@, m1));
    let ghost m2 = m1 + (if n % 3 == 0 { seq![(session_stats_model(), ReplyUse::SessionStats)] } else { seq![] });
    if n % 3 == 0 {
        push_step(&mut steps, session_stats_request(), ReplyUse::SessionStats, Ghost(session_stats_model()));
        assert(steps_are(steps@, m2));
    } else {
        assert(m2 =~= m1);
    }
    let ghost m3 = m2 + (if n % 60 == 0 {
        seq![(free_space_model(remote_base_dir@), ReplyUse::FreeSpace)]
    } else {
        seq![]
    });
    if n % 60 == 0 {
        push_step(&mut steps, free_space_request(remote_base_dir), ReplyUse::FreeSpace,
            Ghost(free_space_model(remote_base_dir@)));
        assert(steps_are(steps@, m3));
    } else {
        assert(m3 =~= m2);
    }
    steps
}

/// The requests that the loop makes for a command, in order, with what to do
/// with each reply.
pub fn plan(cmd: &TorrentCmd, remote_base_dir: &str) -> (r: Vec<Step>)
    ensures
        steps_are(r@, plan_model(*cmd, remote_base_dir@)),
{
    match cmd {
        TorrentCmd::Tick(n) => tick_steps(*n, remote_base_dir),
        TorrentCmd::GetDetails(id) | TorrentCmd::OpenDlDir(id) | TorrentCmd::OpenDlTerm(id) => {
            let mut ids: Vec<i64> = Vec::new();
            ids.push(*id);
            assert(ids@ =~= seq![*id]);
            let use_ = match cmd {
                TorrentCmd::GetDetails(_) => ReplyUse::Details,
                TorrentCmd::OpenDlDir(_) => ReplyUse::OpenFolder(Opener::FileManager),
                _ => ReplyUse::OpenFolder(Opener::Terminal),
            };
            let mut steps: Vec<Step> = Vec::new();
            push_step(&mut steps, torrent_details_request(&ids), use_, Ghost(details_model(seq![*id])));
            assert(steps_are(steps@, plan_model(*cmd, remote_base_dir@)));
            steps
        },
        _ => {
            let req = command_request(cmd);
            let use_ = match cmd {
                TorrentCmd::AddTorrent(..) => ReplyUse::AddResult,
                _ => ReplyUse::Ignore,
            };
            let mut steps: Vec<Step> = Vec::new();
            match req {
                Some(j) => {
                    push_step(&mut steps, j, use_, Ghost(command_model(*cmd).unwrap()));
                },
                None => {},
            }
            assert(steps_are(steps@, plan_model(*cmd, remote_base_dir@)));
            steps
        },
    }
}

/// The request of the first refresh, when the loop refreshes at all.
pub fn startup_steps(ping: bool) -> (r: Vec<Step>)
    ensures
        steps_are(r@, if ping { seq![(all_model(info_field_names()), ReplyUse::AllTorrents)] } else { seq![] }),
{
    let mut steps: Vec<Step> = Vec::new();
    if ping {
        let fields = torrent_info_fields();
        push_step(&mut steps, all_torrents_request(&fields), ReplyUse::AllTorrents,
            Ghost(all_model(info_field_names())));
    }
    steps
}

/// Where to open the download folder of a torrent on this machine.
pub struct OpenTarget {
    /// The torrent's download folder, mapped from the server's base folder to
    /// the local one.
    pub folder: String,
    /// When all files of the torrent sit under one top-level entry, that
    /// entry inside the folder; it is opened instead of the folder when it is
    /// a directory.
    pub single_root: Option<String>,
}

/// The first path component of a file of the torrent.
pub open spec fn top_name(f: File) -> Seq<char> {
    split_text(f.name@, '/')[0]
}

/// All files of the torrent share their first path component.
pub open spec fn one_top_name(files: Seq<File>) -> bool {
    forall|j: int| 0 <= j < files.len() ==> #[trigger] top_name(files[j]) == top_name(files[0])
}

/// Maps a torrent's download folder to this machine and finds its single
/// top-level entry, if it has one.
pub fn open_target(download_dir: &str, remote_base_dir: &str, local_base_dir: &str, files: &Vec<File>) -> (r:
    OpenTarget)
    requires
        files.len() > 0,
        sums_fit(file_entries(files@), 0),
    ensures
        r.folder@ == replace_text(download_dir@, remote_base_dir@, local_base_dir@),
        one_top_name(files@) <==> r.single_root is Some,
        r.single_root matches Some(p) ==> p@ == r.folder@ + seq!['/'] + top_name(files@[0]),
{
    let folder = replace_all(download_dir, remote_base_dir, local_base_dir);
    let tree = build_tree(files);
    let ghost xs = file_entries(files@);
    proof {
        lemma_split_text_nonempty(files@[0].name@, '/');
        assert(xs[0] == (files@[0].length, files@[0].bytes_completed, split_text(files@[0].name@, '/')));
        assert(in_group(xs[0], 0, top_name(files@[0])));
        assert(has_name(xs, 0, top_name(files@[0])));
    }
    let n = tree.len();
    if n == 1 {
        let mut p = String::new();
        push_str(&mut p, folder.as_str());
        push_char(&mut p, '/');
        push_str(&mut p, tree[0].path.as_str());
        proof {
            let i0 = choose|i: int| 0 <= i < tree@.len() && #[trigger] tree@[i].name@ == top_name(files@[0]);
            assert(i0 == 0);
            assert forall|j: int| 0 <= j < files@.len() implies #[trigger] top_name(files@[j]) == top_name(
                files@[0],
            ) by {
                lemma_split_text_nonempty(files@[j].name@, '/');
                assert(xs[j] == (files@[j].length, files@[j].bytes_completed, split_text(files@[j].name@, '/')));
                assert(in_group(xs[j], 0, top_name(files@[j])));
                assert(has_name(xs, 0, top_name(files@[j])));
                let w = choose|i: int| 0 <= i < tree@.len() && #[trigger] tree@[i].name@ == top_name(files@[j]);
            }
            assert(p@ =~= folder@ + seq!['/'] + top_name(files@[0]));
        }
        OpenTarget { folder, single_root: Some(p) }
    } else {
        proof {
            if one_top_name(files@) {
                assert forall|nm: Seq<char>| has_name(xs, 0, nm) implies nm == top_name(files@[0]) by {
                    let j = choose|j: int| 0 <= j < xs.len() && #[trigger] in_group(xs[j], 0, nm);
                    assert(xs[j] == (files@[j].length, files@[j].bytes_completed, split_text(files@[j].name@, '/')));
                    assert(top_name(files@[j]) == top_name(files@[0]));
                }
                assert(tree@.len() >= 1);
                assert(has_name(xs, 0, tree@[0].name@));
                assert(has_name(xs, 0, tree@[1].name@));
                assert(text_lt(tree@[0].name@, tree@[1].name@));
                lemma_text_lt_irreflexive(tree@[0].name@);
            }
        }
        OpenTarget { folder, single_root: None }
    }
}

/// The command line that opens a folder: the file manager with the folder,
/// or a terminal started in the folder.
pub open spec fn launch_model(opener: Opener, path: Seq<char>) -> Seq<Seq<char>> {
    match opener {
        Opener::FileManager => seq!["nautilus"@, path],
        Opener::Terminal => seq!["alacritty"@, "--working-directory"@, path],
    }
}

/// The program and arguments that open `path` with `opener`.
pub fn launch_command(opener: Opener, path: &str) -> (r: Vec<String>)
    ensures
        strings_view(r@) == launch_model(opener, path@),
{
    let mut v: Vec<String> = Vec::new();
    match opener {
        Opener::FileManager => {
            v.push(text_of("nautilus"));
            v.push(text_of(path));
        },
        Opener::Terminal => {
            v.push(text_of("alacritty"));
            v.push(text_of("--working-directory"));
            v.push(text_of(path));
        },
    }
    assert(strings_view(v@) =~= launch_model(opener, path@));
    v
}

/// The notice shown after adding a torrent, when notices are on: success
/// when the server's result is `success`, an error otherwise.
pub open spec fn add_notice_model(result: Seq<char>, notify_on_add: bool) -> Option<Seq<char>> {
    if !notify_on_add {
        None
    } else if result == "success"@ {
        Some("Torrent Added!"@)
    } else {
        Some("Error!"@)
    }
}

/// The notice about an added torrent, from the result string of the reply.
pub fn add_notice(result: &str, notify_on_add: bool) -> (r: Option<String>)
    ensures
        match (r, add_notice_model(result@, notify_on_add)) {
            (Some(t), Some(m)) => t@ == m,
            (None, None) => true,
            _ => false,
        },
{
    if !notify_on_add {
        None
    } else if text_eq(result, "success") {
        Some(text_of("Torrent Added!"))
    } else {
        Some(text_of("Error!"))
    }
}

/// What the client does after a reply to an RPC request.
pub enum SessionStep {
    /// The server refused the session id (HTTP 409) and sent this one: store
    /// it and send the request again.
    Resend(String),
    /// Use the reply.
    Accept,
}

/// The HTTP status with which the server asks for a new session id.
pub const SESSION_CONFLICT: u16 = 409;

/// Decides on a reply from its HTTP status and its session-id header.
pub fn session_step(status: u16, session_id: Option<String>) -> (r: SessionStep)
    requires
        status == SESSION_CONFLICT ==> session_id is Some,
    ensures
        status == SESSION_CONFLICT ==> r == SessionStep::Resend(session_id.unwrap()),
        status != SESSION_CONFLICT ==> r == SessionStep::Accept,
{
    if status == SESSION_CONFLICT {
        match session_id {
            Some(t) => SessionStep::Resend(t),
            None => SessionStep::Accept,
        }
    } else {
        SessionStep::Accept
    }
}

/// The command the move dialog sends: when it was confirmed and a folder is
/// selected, move the torrent there (moving its data when the box is ticked);
/// otherwise none.
pub fn move_command(confirmed: bool, id: i64, selected: Option<String>, move_data: bool) -> (r: Option<
    TorrentCmd,
>)
    ensures
        r is Some <==> (confirmed && selected is Some),
        match r {
            Some(TorrentCmd::Move(ids, folder, m)) => ids@ == seq![id] && folder@ == selected.unwrap()@ && m
                == move_data,
            Some(_) => false,
            None => true,
        },
{
    if !confirmed {
        return None;
    }
    match selected {
        Some(folder) => {
            let mut ids: Vec<i64> = Vec::new();
            ids.push(id);
            assert(ids@ =~= seq![id]);
            Some(TorrentCmd::Move(ids, folder, move_data))
        },
        None => None,
    }
}

/// Which torrent of a details reply the details pane shows: the first, when
/// the reply has any.
pub fn details_to_show(count: usize) -> (r: Option<usize>)
    ensures
        r == (if count > 0 { Some(0usize) } else { None }),
{
    if count > 0 {
        Some(0)
    } else {
        None
    }
}

} // verus!
