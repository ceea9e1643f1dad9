use transg::commands::{
    add_notice, details_to_show, launch_command, move_command, open_target, plan, session_step, startup_steps,
    tick_steps, Opener, ReplyUse,
    SessionStep, Step, SESSION_CONFLICT,
};
use transg::json::{json_ints, json_strs, json_text, Json};
use transg::requests::{
    all_torrents_request, command_request, free_space_request, queue_move_bottom_request, queue_move_down_request,
    queue_move_top_request, queue_move_up_request, recent_torrents_request, session_stats_request,
    torrent_details_fields, torrent_details_request, torrent_info_fields, torrents_request,
};
use transg::{File, TorrentCmd};

fn render(j: &Json) -> String {
    match j {
        Json::Null => "null".to_string(),
        Json::Bool(b) => b.to_string(),
        Json::Int(i) => i.to_string(),
        Json::Str(s) => format!("\"{}\"", s),
        Json::Array(v) => format!("[{}]", v.iter().map(render).collect::<Vec<_>>().join(",")),
        Json::Object(v) => format!(
            "{{{}}}",
            v.iter().map(|(k, x)| format!("\"{}\":{}", k, render(x))).collect::<Vec<_>>().join(",")
        ),
    }
}

fn quoted(v: &[String]) -> String {
    format!("[{}]", v.iter().map(|s| format!("\"{}\"", s)).collect::<Vec<_>>().join(","))
}

#[test]
fn json_builders() {
    assert_eq!(render(&json_text("a")), "\"a\"");
    assert_eq!(render(&json_ints(&vec![1, -2])), "[1,-2]");
    assert_eq!(render(&json_strs(&vec!["x".to_string()])), "[\"x\"]");
    assert_eq!(render(&json_ints(&vec![])), "[]");
}

#[test]
fn simple_requests() {
    assert_eq!(render(&session_stats_request()), "{\"method\":\"session-stats\"}");
    assert_eq!(
        render(&free_space_request("/srv")),
        "{\"method\":\"free-space\",\"arguments\":{\"path\":\"/srv\"}}"
    );
    assert_eq!(
        render(&queue_move_top_request(&vec![1, 2])),
        "{\"method\":\"queue-move-top\",\"arguments\":{\"ids\":[1,2]}}"
    );
    // moving up sends the same method as moving to the top
    assert_eq!(
        render(&queue_move_up_request(&vec![3])),
        "{\"method\":\"queue-move-top\",\"arguments\":{\"ids\":[3]}}"
    );
    assert_eq!(
        render(&queue_move_down_request(&vec![3])),
        "{\"method\":\"queue-move-down\",\"arguments\":{\"ids\":[3]}}"
    );
    assert_eq!(
        render(&queue_move_bottom_request(&vec![])),
        "{\"method\":\"queue-move-bottom\",\"arguments\":{\"ids\":[]}}"
    );
}

#[test]
fn field_lists() {
    let info = torrent_info_fields();
    assert_eq!(info.len(), 20);
    assert_eq!(info[0], "id");
    assert_eq!(info[19], "addedDate");
    let details = torrent_details_fields();
    assert_eq!(details.len(), 31);
    assert_eq!(details[30], "trackerStats");
    assert!(details.contains(&"fileStats".to_string()));
}

#[test]
fn torrent_get_requests() {
    let f = vec!["id".to_string(), "name".to_string()];
    assert_eq!(
        render(&torrents_request(&vec![5], &f)),
        "{\"method\":\"torrent-get\",\"arguments\":{\"ids\":[5],\"fields\":[\"id\",\"name\"],\"format\":\"table\"}}"
    );
    assert_eq!(
        render(&recent_torrents_request(&f)),
        "{\"method\":\"torrent-get\",\"arguments\":{\"ids\":\"recently-active\",\"fields\":[\"id\",\"name\"],\"format\":\"table\"}}"
    );
    assert_eq!(
        render(&all_torrents_request(&f)),
        "{\"method\":\"torrent-get\",\"arguments\":{\"fields\":[\"id\",\"name\"],\"format\":\"table\"}}"
    );
    let d = torrent_details_fields();
    assert_eq!(
        render(&torrent_details_request(&vec![9])),
        format!(
            "{{\"method\":\"torrent-get\",\"arguments\":{{\"ids\":[9],\"fields\":{},\"format\":\"objects\"}}}}",
            quoted(&d)
        )
    );
}

fn cmd_json(c: &TorrentCmd) -> Option<String> {
    command_request(c).map(|j| render(&j))
}

#[test]
fn command_requests() {
    assert_eq!(
        cmd_json(&TorrentCmd::Delete(vec![1], true)).unwrap(),
        "{\"method\":\"torrent-remove\",\"arguments\":{\"ids\":[1],\"delete-local-data\":true}}"
    );
    assert_eq!(
        cmd_json(&TorrentCmd::Start(vec![1, 2])).unwrap(),
        "{\"method\":\"torrent-start\",\"arguments\":{\"ids\":[1,2]}}"
    );
    assert_eq!(
        cmd_json(&TorrentCmd::StartNow(vec![1])).unwrap(),
        "{\"method\":\"torrent-start-now\",\"arguments\":{\"ids\":[1]}}"
    );
    assert_eq!(
        cmd_json(&TorrentCmd::Stop(vec![1])).unwrap(),
        "{\"method\":\"torrent-stop\",\"arguments\":{\"ids\":[1]}}"
    );
    assert_eq!(
        cmd_json(&TorrentCmd::Verify(vec![1])).unwrap(),
        "{\"method\":\"torrent-verify\",\"arguments\":{\"ids\":[1]}}"
    );
    assert_eq!(
        cmd_json(&TorrentCmd::Reannounce(vec![1])).unwrap(),
        "{\"method\":\"torrent-reannounce\",\"arguments\":{\"ids\":[1]}}"
    );
    assert_eq!(
        cmd_json(&TorrentCmd::Move(vec![4], "/new".to_string(), false)).unwrap(),
        "{\"method\":\"torrent-set-location\",\"arguments\":{\"ids\":[4],\"location\":\"/new\",\"move\":false}}"
    );
    assert_eq!(
        cmd_json(&TorrentCmd::QueueMoveUp(vec![2])).unwrap(),
        "{\"method\":\"queue-move-top\",\"arguments\":{\"ids\":[2]}}"
    );
    assert_eq!(
        cmd_json(&TorrentCmd::AddTorrent(Some("/d".to_string()), Some("magnet:?x".to_string()), None, true))
            .unwrap(),
        "{\"method\":\"torrent-add\",\"arguments\":{\"download-dir\":\"/d\",\"filename\":\"magnet:?x\",\"paused\":true}}"
    );
    assert_eq!(
        cmd_json(&TorrentCmd::AddTorrent(None, None, Some("QUJD".to_string()), false)).unwrap(),
        "{\"method\":\"torrent-add\",\"arguments\":{\"metainfo\":\"QUJD\",\"paused\":false}}"
    );
    assert_eq!(cmd_json(&TorrentCmd::Tick(3)), None);
    assert_eq!(cmd_json(&TorrentCmd::GetDetails(3)), None);
    assert_eq!(cmd_json(&TorrentCmd::OpenDlDir(3)), None);
}

fn uses(steps: &[Step]) -> Vec<ReplyUse> {
    steps.iter().map(|s| s.reply).collect()
}

#[test]
fn tick_schedule() {
    assert_eq!(uses(&tick_steps(1, "/srv")), vec![ReplyUse::RecentTorrents(1)]);
    assert_eq!(uses(&tick_steps(3, "/srv")), vec![ReplyUse::RecentTorrents(3), ReplyUse::SessionStats]);
    assert_eq!(uses(&tick_steps(20, "/srv")), vec![ReplyUse::RecentTorrents(20)]);
    let s = tick_steps(120, "/srv");
    assert_eq!(uses(&s), vec![ReplyUse::RecentTorrents(120), ReplyUse::SessionStats, ReplyUse::FreeSpace]);
    assert_eq!(render(&s[2].request), "{\"method\":\"free-space\",\"arguments\":{\"path\":\"/srv\"}}");
    assert_eq!(render(&s[1].request), "{\"method\":\"session-stats\"}");
    let f = torrent_info_fields();
    assert_eq!(render(&s[0].request), render(&recent_torrents_request(&f)));
}

#[test]
fn plans_of_commands() {
    assert_eq!(uses(&plan(&TorrentCmd::Tick(0), "/b")).len(), 3);
    let d = plan(&TorrentCmd::GetDetails(7), "/b");
    assert_eq!(uses(&d), vec![ReplyUse::Details]);
    assert_eq!(render(&d[0].request), render(&torrent_details_request(&vec![7])));
    assert_eq!(uses(&plan(&TorrentCmd::OpenDlDir(7), "/b")), vec![ReplyUse::OpenFolder(Opener::FileManager)]);
    assert_eq!(uses(&plan(&TorrentCmd::OpenDlTerm(7), "/b")), vec![ReplyUse::OpenFolder(Opener::Terminal)]);
    assert_eq!(uses(&plan(&TorrentCmd::Stop(vec![1]), "/b")), vec![ReplyUse::Ignore]);
    assert_eq!(
        uses(&plan(&TorrentCmd::AddTorrent(None, Some("x".to_string()), None, false), "/b")),
        vec![ReplyUse::AddResult]
    );
    assert_eq!(uses(&startup_steps(true)), vec![ReplyUse::AllTorrents]);
    assert!(startup_steps(false).is_empty());
}

fn file(name: &str) -> File {
    File { name: name.to_string(), length: 1, bytes_completed: 0 }
}

#[test]
fn open_targets() {
    let t = open_target("/srv/dl/movies", "/srv/dl", "/home/me/dl", &vec![file("Film/a.mkv"), file("Film/b.srt")]);
    assert_eq!(t.folder, "/home/me/dl/movies");
    assert_eq!(t.single_root, Some("/home/me/dl/movies/Film".to_string()));
    let t = open_target("/srv/dl", "/srv/dl", "/l", &vec![file("a"), file("b/c")]);
    assert_eq!(t.folder, "/l");
    assert_eq!(t.single_root, None);
    let t = open_target("/x", "/srv", "/l", &vec![file("single.iso")]);
    assert_eq!(t.folder, "/x");
    assert_eq!(t.single_root, Some("/x/single.iso".to_string()));
}

#[test]
fn launch_commands() {
    assert_eq!(launch_command(Opener::FileManager, "/p"), vec!["nautilus", "/p"]);
    assert_eq!(launch_command(Opener::Terminal, "/p"), vec!["alacritty", "--working-directory", "/p"]);
}

#[test]
fn add_notices() {
    assert_eq!(add_notice("success", true), Some("Torrent Added!".to_string()));
    assert_eq!(add_notice("duplicate torrent", true), Some("Error!".to_string()));
    assert_eq!(add_notice("success", false), None);
}

#[test]
fn session_steps() {
    match session_step(SESSION_CONFLICT, Some("abc".to_string())) {
        SessionStep::Resend(id) => assert_eq!(id, "abc"),
        SessionStep::Accept => panic!("expected a resend"),
    }
    assert!(matches!(session_step(200, None), SessionStep::Accept));
    assert!(matches!(session_step(200, Some("x".to_string())), SessionStep::Accept));
}

#[test]
fn move_commands() {
    match move_command(true, 7, Some("/dst".to_string()), true) {
        Some(TorrentCmd::Move(ids, folder, m)) => {
            assert_eq!(ids, vec![7]);
            assert_eq!(folder, "/dst");
            assert!(m);
        }
        _ => panic!("expected a move"),
    }
    assert!(move_command(false, 7, Some("/dst".to_string()), true).is_none());
    assert!(move_command(true, 7, None, false).is_none());
}

#[test]
fn details_pane_shows_first() {
    assert_eq!(details_to_show(3), Some(0));
    assert_eq!(details_to_show(0), None);
}
