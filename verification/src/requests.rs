//! The bodies of the requests the client sends to the Transmission RPC
//! endpoint.
use vstd::prelude::*;
use crate::json::{Json, JsonModel, json_is, jstr, jints, jstrs, json_text, json_ints, json_strs, json_field, member_value};
use crate::text::push_str;
use crate::commands::TorrentCmd;

verus! {

/// A request without arguments: `{"method": method}`.
pub open spec fn call_model(method: Seq<char>) -> JsonModel {
    JsonModel::Object(seq![("method"@, jstr(method))])
}

/// A request with arguments: `{"method": method, "arguments": {..}}`.
pub open spec fn call_with_model(method: Seq<char>, args: Seq<(Seq<char>, JsonModel)>) -> JsonModel {
    JsonModel::Object(seq![("method"@, jstr(method)), ("arguments"@, JsonModel::Object(args))])
}

/// The views of a list of strings.
pub open spec fn texts(v: Seq<String>) -> Seq<Seq<char>> {
    v.map_values(|s: String| s@)
}

/// `session-stats`.
pub open spec fn session_stats_model() -> JsonModel {
    call_model("session-stats"@)
}

/// `free-space` of a folder.
pub open spec fn free_space_model(path: Seq<char>) -> JsonModel {
    call_with_model("free-space"@, seq![("path"@, jstr(path))])
}

/// `torrent-get` of the details of the given torrents, as objects.
pub open spec fn details_model(ids: Seq<i64>) -> JsonModel {
    call_with_model(
        "torrent-get"@,
        seq![("ids"@, jints(ids)), ("fields"@, jstrs(details_field_names())), ("format"@, jstr("objects"@))],
    )
}

/// `torrent-get` of the given fields of the recently active torrents.
pub open spec fn recent_model(fields: Seq<Seq<char>>) -> JsonModel {
    call_with_model(
        "torrent-get"@,
        seq![("ids"@, jstr("recently-active"@)), ("fields"@, jstrs(fields)), ("format"@, jstr("table"@))],
    )
}

/// `torrent-get` of the given fields of all torrents.
pub open spec fn all_model(fields: Seq<Seq<char>>) -> JsonModel {
    call_with_model("torrent-get"@, seq![("fields"@, jstrs(fields)), ("format"@, jstr("table"@))])
}

fn key(t: &str) -> (r: String)
    ensures
        r@ == t@,
{
    let mut s = String::new();
    push_str(&mut s, t);
    assert(s@ =~= t@);
    s
}

/// Builds `{"method": method}`.
fn call(method: &str) -> (r: Json)
    ensures
        json_is(r, call_model(method@)),
{
    let mut fs: Vec<(String, Json)> = Vec::new();
    fs.push((key("method"), json_text(method)));
    let r = Json::Object(fs);
    assert(json_is(r, call_model(method@)));
    r
}

/// Builds `{"method": method, "arguments": {args}}`.
fn call_with(method: &str, args: Vec<(String, Json)>, Ghost(ms): Ghost<Seq<(Seq<char>, JsonModel)>>) -> (r: Json)
    requires
        json_is(Json::Object(args), JsonModel::Object(ms)),
    ensures
        json_is(r, call_with_model(method@, ms)),
{
    let a = Json::Object(args);
    let mut fs: Vec<(String, Json)> = Vec::new();
    fs.push((key("method"), json_text(method)));
    fs.push((key("arguments"), a));
    let r = Json::Object(fs);
    assert(json_is(r, call_with_model(method@, ms)));
    r
}

/// The fields that a torrent-details request asks for.
pub open spec fn details_field_names() -> Seq<Seq<char>> {
    seq![
        "id"@, "name"@, "eta"@, "sizeWhenDone"@, "seederCount"@, "leecherCount"@,
        "downloadDir"@, "comment"@, "hashString"@, "rateDownload"@, "rateUpload"@,
        "uploadRatio"@, "seedRatioLimit"@, "priority"@, "doneDate"@, "percentDone"@,
        "downloadedEver"@, "uploadedEver"@, "corruptEver"@, "status"@,
        "labels"@, "pieceCount"@, "pieces"@, "files"@, "fileStats"@, "priorities"@,
        "wanted"@, "peers"@, "peer"@, "trackers"@, "trackerStats"@,
    ]
}

/// The fields of the torrent list (in the order of the table rows).
pub open spec fn info_field_names() -> Seq<Seq<char>> {
    seq![
        "id"@, "name"@, "status"@, "percentDone"@, "error"@, "errorString"@, "eta"@,
        "queuePosition"@, "isFinished"@, "isStalled"@, "metadataPercentComplete"@,
        "peersConnected"@, "rateDownload"@, "rateUpload"@, "recheckProgress"@,
        "sizeWhenDone"@, "downloadDir"@, "uploadedEver"@, "uploadRatio"@, "addedDate"@,
    ]
}

/// Builds a list of strings from literals, checking each against `names`.
fn push_name(v: &mut Vec<String>, t: &str, Ghost(names): Ghost<Seq<Seq<char>>>)
    requires
        old(v)@.len() < names.len(),
        names[old(v)@.len() as int] == t@,
        texts(old(v)@) == names.take(old(v)@.len() as int),
    ensures
        texts(final(v)@) == names.take(final(v)@.len() as int),
        final(v)@.len() == old(v)@.len() + 1,
{
    let ghost n = v@.len();
    v.push(key(t));
    assert(texts(v@) =~= names.take(n as int + 1));
}

/// The fields that a torrent-details request asks for.
pub fn torrent_details_fields() -> (r: Vec<String>)
    ensures
        texts(r@) == details_field_names(),
{
    let ghost names = details_field_names();
    let mut v: Vec<String> = Vec::new();
    assert(texts(v@) =~= names.take(0));
    push_name(&mut v, "id", Ghost(names));
    push_name(&mut v, "name", Ghost(names));
    push_name(&mut v, "eta", Ghost(names));
    push_name(&mut v, "sizeWhenDone", Ghost(names));
    push_name(&mut v, "seederCount", Ghost(names));
    push_name(&mut v, "leecherCount", Ghost(names));
    push_name(&mut v, "downloadDir", Ghost(names));
    push_name(&mut v, "comment", Ghost(names));
    push_name(&mut v, "hashString", Ghost(names));
    push_name(&mut v, "rateDownload", Ghost(names));
    push_name(&mut v, "rateUpload", Ghost(names));
    push_name(&mut v, "uploadRatio", Ghost(names));
    push_name(&mut v, "seedRatioLimit", Ghost(names));
    push_name(&mut v, "priority", Ghost(names));
    push_name(&mut v, "doneDate", Ghost(names));
    push_name(&mut v, "percentDone", Ghost(names));
    push_name(&mut v, "downloadedEver", Ghost(names));
    push_name(&mut v, "uploadedEver", Ghost(names));
    push_name(&mut v, "corruptEver", Ghost(names));
    push_name(&mut v, "status", Ghost(names));
    push_name(&mut v, "labels", Ghost(names));
    push_name(&mut v, "pieceCount", Ghost(names));
    push_name(&mut v, "pieces", Ghost(names));
    push_name(&mut v, "files", Ghost(names));
    push_name(&mut v, "fileStats", Ghost(names));
    push_name(&mut v, "priorities", Ghost(names));
    push_name(&mut v, "wanted", Ghost(names));
    push_name(&mut v, "peers", Ghost(names));
    push_name(&mut v, "peer", Ghost(names));
    push_name(&mut v, "trackers", Ghost(names));
    push_name(&mut v, "trackerStats", Ghost(names));
    assert(names.take(31) =~= names);
    v
}

/// The fields of the torrent list, in the order of the table columns.
pub fn torrent_info_fields() -> (r: Vec<String>)
    ensures
        texts(r@) == info_field_names(),
{
    let ghost names = info_field_names();
    let mut v: Vec<String> = Vec::new();
    assert(texts(v@) =~= names.take(0));
    push_name(&mut v, "id", Ghost(names));
    push_name(&mut v, "name", Ghost(names));
    push_name(&mut v, "status", Ghost(names));
    push_name(&mut v, "percentDone", Ghost(names));
    push_name(&mut v, "error", Ghost(names));
    push_name(&mut v, "errorString", Ghost(names));
    push_name(&mut v, "eta", Ghost(names));
    push_name(&mut v, "queuePosition", Ghost(names));
    push_name(&mut v, "isFinished", Ghost(names));
    push_name(&mut v, "isStalled", Ghost(names));
    push_name(&mut v, "metadataPercentComplete", Ghost(names));
    push_name(&mut v, "peersConnected", Ghost(names));
    push_name(&mut v, "rateDownload", Ghost(names));
    push_name(&mut v, "rateUpload", Ghost(names));
    push_name(&mut v, "recheckProgress", Ghost(names));
    push_name(&mut v, "sizeWhenDone", Ghost(names));
    push_name(&mut v, "downloadDir", Ghost(names));
    push_name(&mut v, "uploadedEver", Ghost(names));
    push_name(&mut v, "uploadRatio", Ghost(names));
    push_name(&mut v, "addedDate", Ghost(names));
    assert(names.take(20) =~= names);
    v
}

/// `session-stats`.
pub fn session_stats_request() -> (r: Json)
    ensures
        json_is(r, session_stats_model()),
{
    call("session-stats")
}

/// `free-space` of a folder on the server.
pub fn free_space_request(path: &str) -> (r: Json)
    ensures
        json_is(r, free_space_model(path@)),
{
    let mut args: Vec<(String, Json)> = Vec::new();
    args.push((key("path"), json_text(path)));
    let ghost ms = seq![("path"@, jstr(path@))];
    assert(json_is(Json::Object(args), JsonModel::Object(ms)));
    call_with("free-space", args, Ghost(ms))
}

/// `torrent-get` of the details of the given torrents, as objects.
pub fn torrent_details_request(ids: &Vec<i64>) -> (r: Json)
    ensures
        json_is(r, details_model(ids@)),
{
    let fields = torrent_details_fields();
    let mut args: Vec<(String, Json)> = Vec::new();
    args.push((key("ids"), json_ints(ids)));
    args.push((key("fields"), json_strs(&fields)));
    args.push((key("format"), json_text("objects")));
    let ghost ms = seq![
        ("ids"@, jints(ids@)),
        ("fields"@, jstrs(details_field_names())),
        ("format"@, jstr("objects"@)),
    ];
    assert(json_is(Json::Object(args), JsonModel::Object(ms)));
    call_with("torrent-get", args, Ghost(ms))
}

/// `torrent-get` of the given fields of the given torrents, as a table.
pub fn torrents_request(ids: &Vec<i64>, fields: &Vec<String>) -> (r: Json)
    ensures
        json_is(
            r,
            call_with_model(
                "torrent-get"@,
                seq![("ids"@, jints(ids@)), ("fields"@, jstrs(texts(fields@))), ("format"@, jstr("table"@))],
            ),
        ),
{
    let mut args: Vec<(String, Json)> = Vec::new();
    args.push((key("ids"), json_ints(ids)));
    args.push((key("fields"), json_strs(fields)));
    args.push((key("format"), json_text("table")));
    let ghost ms = seq![("ids"@, jints(ids@)), ("fields"@, jstrs(texts(fields@))), ("format"@, jstr("table"@))];
    assert(json_is(Json::Object(args), JsonModel::Object(ms)));
    call_with("torrent-get", args, Ghost(ms))
}

/// `torrent-get` of the given fields of the recently active torrents, as a
/// table; the reply also lists the ids of recently removed torrents.
pub fn recent_torrents_request(fields: &Vec<String>) -> (r: Json)
    ensures
        json_is(r, recent_model(texts(fields@))),
{
    let mut args: Vec<(String, Json)> = Vec::new();
    args.push((key("ids"), json_text("recently-active")));
    args.push((key("fields"), json_strs(fields)));
    args.push((key("format"), json_text("table")));
    let ghost ms = seq![
        ("ids"@, jstr("recently-active"@)),
        ("fields"@, jstrs(texts(fields@))),
        ("format"@, jstr("table"@)),
    ];
    assert(json_is(Json::Object(args), JsonModel::Object(ms)));
    call_with("torrent-get", args, Ghost(ms))
}

/// `torrent-get` of the given fields of all torrents, as a table.
pub fn all_torrents_request(fields: &Vec<String>) -> (r: Json)
    ensures
        json_is(r, all_model(texts(fields@))),
{
    let mut args: Vec<(String, Json)> = Vec::new();
    args.push((key("fields"), json_strs(fields)));
    args.push((key("format"), json_text("table")));
    let ghost ms = seq![("fields"@, jstrs(texts(fields@))), ("format"@, jstr("table"@))];
    assert(json_is(Json::Object(args), JsonModel::Object(ms)));
    call_with("torrent-get", args, Ghost(ms))
}

/// A request whose only argument is a list of torrent ids.
fn ids_call(method: &str, ids: &Vec<i64>) -> (r: Json)
    ensures
        json_is(r, call_with_model(method@, seq![("ids"@, jints(ids@))])),
{
    let mut args: Vec<(String, Json)> = Vec::new();
    args.push((key("ids"), json_ints(ids)));
    let ghost ms = seq![("ids"@, jints(ids@))];
    assert(json_is(Json::Object(args), JsonModel::Object(ms)));
    call_with(method, args, Ghost(ms))
}

/// Moves torrents to the top of the queue.
pub fn queue_move_top_request(ids: &Vec<i64>) -> (r: Json)
    ensures
        json_is(r, call_with_model("queue-move-top"@, seq![("ids"@, jints(ids@))])),
{
    ids_call("queue-move-top", ids)
}

/// Moving torrents up the queue sends the same request as moving them to
/// the top.
pub fn queue_move_up_request(ids: &Vec<i64>) -> (r: Json)
    ensures
        json_is(r, call_with_model("queue-move-top"@, seq![("ids"@, jints(ids@))])),
{
    ids_call("queue-move-top", ids)
}

/// Moves torrents to the bottom of the queue.
pub fn queue_move_bottom_request(ids: &Vec<i64>) -> (r: Json)
    ensures
        json_is(r, call_with_model("queue-move-bottom"@, seq![("ids"@, jints(ids@))])),
{
    ids_call("queue-move-bottom", ids)
}

/// Moves torrents down the queue.
pub fn queue_move_down_request(ids: &Vec<i64>) -> (r: Json)
    ensures
        json_is(r, call_with_model("queue-move-down"@, seq![("ids"@, jints(ids@))])),
{
    ids_call("queue-move-down", ids)
}

/// A member `key: text` when the text is given, nothing otherwise.
pub open spec fn optional_member(key: Seq<char>, v: Option<String>) -> Seq<(Seq<char>, JsonModel)> {
    match v {
        Some(t) => seq![(key, jstr(t@))],
        None => seq![],
    }
}

/// The request a command sends to the server; the commands that the loop
/// answers by itself (ticks, details, opening folders) send none here.
pub open spec fn command_model(cmd: TorrentCmd) -> Option<JsonModel> {
    match cmd {
        TorrentCmd::QueueMoveUp(ids) => Some(call_with_model("queue-move-top"@, seq![("ids"@, jints(ids@))])),
        TorrentCmd::QueueMoveDown(ids) => Some(call_with_model("queue-move-down"@, seq![("ids"@, jints(ids@))])),
        TorrentCmd::QueueMoveTop(ids) => Some(call_with_model("queue-move-top"@, seq![("ids"@, jints(ids@))])),
        TorrentCmd::QueueMoveBottom(ids) => Some(
            call_with_model("queue-move-bottom"@, seq![("ids"@, jints(ids@))]),
        ),
        TorrentCmd::Delete(ids, with_data) => Some(
            call_with_model(
                "torrent-remove"@,
                seq![("ids"@, jints(ids@)), ("delete-local-data"@, JsonModel::Bool(with_data))],
            ),
        ),
        TorrentCmd::Start(ids) => Some(call_with_model("torrent-start"@, seq![("ids"@, jints(ids@))])),
        TorrentCmd::StartNow(ids) => Some(call_with_model("torrent-start-now"@, seq![("ids"@, jints(ids@))])),
        TorrentCmd::Stop(ids) => Some(call_with_model("torrent-stop"@, seq![("ids"@, jints(ids@))])),
        TorrentCmd::Verify(ids) => Some(call_with_model("torrent-verify"@, seq![("ids"@, jints(ids@))])),
        TorrentCmd::Reannounce(ids) => Some(call_with_model("torrent-reannounce"@, seq![("ids"@, jints(ids@))])),
        TorrentCmd::Move(ids, location, move_data) => Some(
            call_with_model(
                "torrent-set-location"@,
                seq![
                    ("ids"@, jints(ids@)),
                    ("location"@, jstr(location@)),
                    ("move"@, JsonModel::Bool(move_data)),
                ],
            ),
        ),
        TorrentCmd::AddTorrent(dir, file, meta, paused) => Some(
            call_with_model(
                "torrent-add"@,
                optional_member("download-dir"@, dir) + optional_member("filename"@, file)
                    + optional_member("metainfo"@, meta) + seq![("paused"@, JsonModel::Bool(paused))],
            ),
        ),
        _ => None,
    }
}

fn push_optional(
    args: &mut Vec<(String, Json)>,
    k: &str,
    v: &Option<String>,
    Ghost(ms): Ghost<Seq<(Seq<char>, JsonModel)>>,
)
    requires
        json_is(Json::Object(*old(args)), JsonModel::Object(ms)),
    ensures
        json_is(Json::Object(*final(args)), JsonModel::Object(ms + optional_member(k@, *v))),
{
    match v {
        Some(t) => {
            args.push((key(k), json_text(t.as_str())));
            assert(json_is(Json::Object(*args), JsonModel::Object(ms + optional_member(k@, *v)))) by {
                assert(ms + optional_member(k@, *v) =~= ms.push((k@, jstr(t@))));
            }
        },
        None => {
            assert(ms + optional_member(k@, *v) =~= ms);
        },
    }
}

/// The request body of a command, when the command sends one.
pub fn command_request(cmd: &TorrentCmd) -> (r: Option<Json>)
    ensures
        match (r, command_model(*cmd)) {
            (Some(j), Some(m)) => json_is(j, m),
            (None, None) => true,
            _ => false,
        },
{
    match cmd {
        TorrentCmd::QueueMoveUp(ids) => Some(ids_call("queue-move-top", ids)),
        TorrentCmd::QueueMoveDown(ids) => Some(ids_call("queue-move-down", ids)),
        TorrentCmd::QueueMoveTop(ids) => Some(ids_call("queue-move-top", ids)),
        TorrentCmd::QueueMoveBottom(ids) => Some(ids_call("queue-move-bottom", ids)),
        TorrentCmd::Delete(ids, with_data) => {
            let mut args: Vec<(String, Json)> = Vec::new();
            args.push((key("ids"), json_ints(ids)));
            args.push((key("delete-local-data"), Json::Bool(*with_data)));
            assert(json_is(Json::Bool(*with_data), JsonModel::Bool(*with_data)));
            let ghost ms = seq![("ids"@, jints(ids@)), ("delete-local-data"@, JsonModel::Bool(*with_data))];
            assert(json_is(Json::Object(args), JsonModel::Object(ms)));
            Some(call_with("torrent-remove", args, Ghost(ms)))
        },
        TorrentCmd::Start(ids) => Some(ids_call("torrent-start", ids)),
        TorrentCmd::StartNow(ids) => Some(ids_call("torrent-start-now", ids)),
        TorrentCmd::Stop(ids) => Some(ids_call("torrent-stop", ids)),
        TorrentCmd::Verify(ids) => Some(ids_call("torrent-verify", ids)),
        TorrentCmd::Reannounce(ids) => Some(ids_call("torrent-reannounce", ids)),
        TorrentCmd::Move(ids, location, move_data) => {
            let mut args: Vec<(String, Json)> = Vec::new();
            args.push((key("ids"), json_ints(ids)));
            args.push((key("location"), json_text(location.as_str())));
            args.push((key("move"), Json::Bool(*move_data)));
            assert(json_is(Json::Bool(*move_data), JsonModel::Bool(*move_data)));
            let ghost ms = seq![
                ("ids"@, jints(ids@)),
                ("location"@, jstr(location@)),
                ("move"@, JsonModel::Bool(*move_data)),
            ];
            assert(json_is(Json::Object(args), JsonModel::Object(ms)));
            Some(call_with("torrent-set-location", args, Ghost(ms)))
        },
        TorrentCmd::AddTorrent(dir, file, meta, paused) => {
            let mut args: Vec<(String, Json)> = Vec::new();
            let ghost m0: Seq<(Seq<char>, JsonModel)> = seq![];
            assert(json_is(Json::Object(args), JsonModel::Object(m0)));
            push_optional(&mut args, "download-dir", dir, Ghost(m0));
            let ghost m1 = m0 + optional_member("download-dir"@, *dir);
            push_optional(&mut args, "filename", file, Ghost(m1));
            let ghost m2 = m1 + optional_member("filename"@, *file);
            push_optional(&mut args, "metainfo", meta, Ghost(m2));
            let ghost m3 = m2 + optional_member("metainfo"@, *meta);
            let ghost before = args@;
            args.push((key("paused"), Json::Bool(*paused)));
            let ghost ms = m3.push(("paused"@, JsonModel::Bool(*paused)));
            assert(json_is(Json::Object(args), JsonModel::Object(ms))) by {
                assert forall|i: int| 0 <= i < args@.len() implies (#[trigger] args@[i]).0@ == ms[i].0 && json_is(
                    args@[i].1,
                    ms[i].1,
                ) by {
                    if i < before.len() {
                        assert(args@[i] == before[i]);
                    }
                }
            }
            assert(ms =~= optional_member("download-dir"@, *dir) + optional_member("filename"@, *file)
                + optional_member("metainfo"@, *meta) + seq![("paused"@, JsonModel::Bool(*paused))]);
            Some(call_with("torrent-add", args, Ghost(ms)))
        },
        _ => None,
    }
}

/// The method a request body names.
pub open spec fn request_method(m: JsonModel) -> Option<JsonModel> {
    json_field(m, "method"@)
}

/// The argument `key` of a request body.
pub open spec fn request_arg(m: JsonModel, key: Seq<char>) -> Option<JsonModel> {
    match json_field(m, "arguments"@) {
        Some(a) => json_field(a, key),
        None => None,
    }
}

/// A string argument that is sent when it is given.
pub open spec fn optional_text(v: Option<String>) -> Option<JsonModel> {
    match v {
        Some(t) => Some(JsonModel::Str(t@)),
        None => None,
    }
}

/// What a server reads from the request of each command, whatever else the
/// request holds: the RPC method of the command and, argument by argument,
/// the values taken from the command. Each queue command names its own
/// method (moving up is sent as moving to the top); removing sends the
/// command's own data flag; adding sends the destination folder exactly when
/// one is given, whatever else is given; commands that the loop answers
/// itself send no request.
pub proof fn lemma_command_request_fields(cmd: TorrentCmd)
    ensures
        ({
            let m = command_model(cmd);
            match cmd {
                TorrentCmd::QueueMoveUp(ids) => request_method(m.unwrap()) == Some(jstr("queue-move-top"@))
                    && request_arg(m.unwrap(), "ids"@) == Some(jints(ids@)),
                TorrentCmd::QueueMoveDown(ids) => request_method(m.unwrap()) == Some(jstr("queue-move-down"@))
                    && request_arg(m.unwrap(), "ids"@) == Some(jints(ids@)),
                TorrentCmd::QueueMoveTop(ids) => request_method(m.unwrap()) == Some(jstr("queue-move-top"@))
                    && request_arg(m.unwrap(), "ids"@) == Some(jints(ids@)),
                TorrentCmd::QueueMoveBottom(ids) => request_method(m.unwrap()) == Some(
                    jstr("queue-move-bottom"@),
                ) && request_arg(m.unwrap(), "ids"@) == Some(jints(ids@)),
                TorrentCmd::Delete(ids, with_data) => request_method(m.unwrap()) == Some(jstr("torrent-remove"@))
                    && request_arg(m.unwrap(), "ids"@) == Some(jints(ids@)) && request_arg(
                    m.unwrap(),
                    "delete-local-data"@,
                ) == Some(JsonModel::Bool(with_data)),
                TorrentCmd::Start(ids) => request_method(m.unwrap()) == Some(jstr("torrent-start"@))
                    && request_arg(m.unwrap(), "ids"@) == Some(jints(ids@)),
                TorrentCmd::StartNow(ids) => request_method(m.unwrap()) == Some(jstr("torrent-start-now"@))
                    && request_arg(m.unwrap(), "ids"@) == Some(jints(ids@)),
                TorrentCmd::Stop(ids) => request_method(m.unwrap()) == Some(jstr("torrent-stop"@))
                    && request_arg(m.unwrap(), "ids"@) == Some(jints(ids@)),
                TorrentCmd::Verify(ids) => request_method(m.unwrap()) == Some(jstr("torrent-verify"@))
                    && request_arg(m.unwrap(), "ids"@) == Some(jints(ids@)),
                TorrentCmd::Reannounce(ids) => request_method(m.unwrap()) == Some(jstr("torrent-reannounce"@))
                    && request_arg(m.unwrap(), "ids"@) == Some(jints(ids@)),
                TorrentCmd::Move(ids, location, move_data) => request_method(m.unwrap()) == Some(
                    jstr("torrent-set-location"@),
                ) && request_arg(m.unwrap(), "ids"@) == Some(jints(ids@)) && request_arg(
                    m.unwrap(),
                    "location"@,
                ) == Some(jstr(location@)) && request_arg(m.unwrap(), "move"@) == Some(
                    JsonModel::Bool(move_data),
                ),
                TorrentCmd::AddTorrent(dir, file, meta, paused) => request_method(m.unwrap()) == Some(
                    jstr("torrent-add"@),
                ) && request_arg(m.unwrap(), "download-dir"@) == optional_text(dir) && request_arg(
                    m.unwrap(),
                    "filename"@,
                ) == optional_text(file) && request_arg(m.unwrap(), "metainfo"@) == optional_text(meta)
                    && request_arg(m.unwrap(), "paused"@) == Some(JsonModel::Bool(paused)),
                _ => m is None,
            }
        }),
{
    match cmd {
        TorrentCmd::QueueMoveUp(ids) => lemma_ids_call_fields("queue-move-top"@, ids@),
        TorrentCmd::QueueMoveDown(ids) => lemma_ids_call_fields("queue-move-down"@, ids@),
        TorrentCmd::QueueMoveTop(ids) => lemma_ids_call_fields("queue-move-top"@, ids@),
        TorrentCmd::QueueMoveBottom(ids) => lemma_ids_call_fields("queue-move-bottom"@, ids@),
        TorrentCmd::Start(ids) => lemma_ids_call_fields("torrent-start"@, ids@),
        TorrentCmd::StartNow(ids) => lemma_ids_call_fields("torrent-start-now"@, ids@),
        TorrentCmd::Stop(ids) => lemma_ids_call_fields("torrent-stop"@, ids@),
        TorrentCmd::Verify(ids) => lemma_ids_call_fields("torrent-verify"@, ids@),
        TorrentCmd::Reannounce(ids) => lemma_ids_call_fields("torrent-reannounce"@, ids@),
        TorrentCmd::Delete(ids, with_data) => {
            let args = seq![("ids"@, jints(ids@)), ("delete-local-data"@, JsonModel::Bool(with_data))];
            lemma_call_fields("torrent-remove"@, args);
            reveal_strlit("ids");
            reveal_strlit("delete-local-data");
            assert(args.drop_first() =~= seq![("delete-local-data"@, JsonModel::Bool(with_data))]);
            assert("ids"@ != "delete-local-data"@) by {
                assert("ids"@.len() != "delete-local-data"@.len());
            }
            assert(member_value(args.drop_first(), "delete-local-data"@) == Some(JsonModel::Bool(with_data)));
            assert(member_value(args, "delete-local-data"@) == Some(JsonModel::Bool(with_data)));
        },
        TorrentCmd::Move(ids, location, move_data) => {
            let args = seq![
                ("ids"@, jints(ids@)),
                ("location"@, jstr(location@)),
                ("move"@, JsonModel::Bool(move_data)),
            ];
            lemma_call_fields("torrent-set-location"@, args);
            reveal_strlit("ids");
            reveal_strlit("location");
            reveal_strlit("move");
            let t1 = args.drop_first();
            assert(t1 =~= seq![("location"@, jstr(location@)), ("move"@, JsonModel::Bool(move_data))]);
            assert(t1.drop_first() =~= seq![("move"@, JsonModel::Bool(move_data))]);
            assert("ids"@ != "location"@ && "ids"@ != "move"@) by {
                assert("ids"@.len() != "location"@.len() && "ids"@[0] != "move"@[0]);
            }
            assert("location"@ != "move"@) by {
                assert("location"@.len() != "move"@.len());
            }
            assert(member_value(t1.drop_first(), "move"@) == Some(JsonModel::Bool(move_data)));
            assert(member_value(t1, "move"@) == Some(JsonModel::Bool(move_data)));
            assert(member_value(args, "move"@) == Some(JsonModel::Bool(move_data)));
            assert(member_value(t1, "location"@) == Some(jstr(location@)));
            assert(member_value(args, "location"@) == Some(jstr(location@)));
        },
        TorrentCmd::AddTorrent(dir, file, meta, paused) => {
            let args = optional_member("download-dir"@, dir) + optional_member("filename"@, file)
                + optional_member("metainfo"@, meta) + seq![("paused"@, JsonModel::Bool(paused))];
            lemma_call_fields("torrent-add"@, args);
            lemma_add_fields(dir, file, meta, paused);
        },
        _ => {},
    }
}

/// The method and arguments of `{"method": method, "arguments": {args}}`.
proof fn lemma_call_fields(method: Seq<char>, args: Seq<(Seq<char>, JsonModel)>)
    ensures
        request_method(call_with_model(method, args)) == Some(jstr(method)),
        forall|k: Seq<char>| #[trigger] request_arg(call_with_model(method, args), k) == member_value(args, k),
{
    reveal_strlit("method");
    reveal_strlit("arguments");
    let fs = seq![("method"@, jstr(method)), ("arguments"@, JsonModel::Object(args))];
    assert("method"@ != "arguments"@) by {
        assert("method"@.len() != "arguments"@.len());
    }
    assert(call_with_model(method, args) == JsonModel::Object(fs));
    assert(fs.drop_first() =~= seq![("arguments"@, JsonModel::Object(args))]);
    assert(member_value(fs.drop_first(), "arguments"@) == Some(JsonModel::Object(args)));
    assert(member_value(fs, "arguments"@) == Some(JsonModel::Object(args)));
    assert(member_value(fs, "method"@) == Some(jstr(method)));
}

proof fn lemma_ids_call_fields(method: Seq<char>, ids: Seq<i64>)
    ensures
        request_method(call_with_model(method, seq![("ids"@, jints(ids))])) == Some(jstr(method)),
        request_arg(call_with_model(method, seq![("ids"@, jints(ids))]), "ids"@) == Some(jints(ids)),
{
    lemma_call_fields(method, seq![("ids"@, jints(ids))]);
}

/// Looking a key up past members with other keys.
proof fn lemma_member_skip(a: Seq<(Seq<char>, JsonModel)>, b: Seq<(Seq<char>, JsonModel)>, k: Seq<char>)
    requires
        forall|i: int| 0 <= i < a.len() ==> (#[trigger] a[i]).0 != k,
    ensures
        member_value(a + b, k) == member_value(b, k),
    decreases a.len(),
{
    if a.len() > 0 {
        assert((a + b)[0] == a[0]);
        assert((a + b).drop_first() =~= a.drop_first() + b);
        assert forall|i: int| 0 <= i < a.drop_first().len() implies (#[trigger] a.drop_first()[i]).0 != k by {
            assert(a.drop_first()[i] == a[i + 1]);
        }
        lemma_member_skip(a.drop_first(), b, k);
    } else {
        assert(a + b =~= b);
    }
}

/// Looking a key up in a first member with that key.
proof fn lemma_member_first(k: Seq<char>, v: JsonModel, b: Seq<(Seq<char>, JsonModel)>)
    ensures
        member_value(seq![(k, v)] + b, k) == Some(v),
{
    assert((seq![(k, v)] + b)[0] == (k, v));
}

/// The arguments of an add request: each optional member is there exactly
/// when its value is given, whatever the others are.
proof fn lemma_add_fields(dir: Option<String>, file: Option<String>, meta: Option<String>, paused: bool)
    ensures
        ({
            let args = optional_member("download-dir"@, dir) + optional_member("filename"@, file)
                + optional_member("metainfo"@, meta) + seq![("paused"@, JsonModel::Bool(paused))];
            &&& member_value(args, "download-dir"@) == optional_text(dir)
            &&& member_value(args, "filename"@) == optional_text(file)
            &&& member_value(args, "metainfo"@) == optional_text(meta)
            &&& member_value(args, "paused"@) == Some(JsonModel::Bool(paused))
        }),
{
    reveal_strlit("download-dir");
    reveal_strlit("filename");
    reveal_strlit("metainfo");
    reveal_strlit("paused");
    let kd = "download-dir"@;
    let kf = "filename"@;
    let km = "metainfo"@;
    let kp = "paused"@;
    assert(kd != kf && kd != km && kd != kp) by {
        assert(kd.len() != kf.len() && kd.len() != km.len() && kd.len() != kp.len());
    }
    assert(kf != km) by {
        assert(kf[0] != km[0]);
    }
    assert(kf != kp && km != kp) by {
        assert(kf.len() != kp.len() && km.len() != kp.len());
    }
    let od = optional_member(kd, dir);
    let of = optional_member(kf, file);
    let om = optional_member(km, meta);
    let p = seq![(kp, JsonModel::Bool(paused))];
    assert(od + of + om + p =~= od + (of + (om + p)));
    assert(p.drop_first() =~= Seq::<(Seq<char>, JsonModel)>::empty());
    assert(member_value(p.drop_first(), kd) is None);
    assert(member_value(p.drop_first(), kf) is None);
    assert(member_value(p.drop_first(), km) is None);
    assert(member_value(p, kd) is None);
    assert(member_value(p, kf) is None);
    assert(member_value(p, km) is None);
    assert(member_value(p, kp) == Some(JsonModel::Bool(paused)));
    // download-dir
    if let Some(d) = dir {
        assert(od =~= seq![(kd, jstr(d@))]);
        lemma_member_first(kd, jstr(d@), of + (om + p));
    } else {
        assert(od.len() == 0);
        lemma_member_skip(od, of + (om + p), kd);
        lemma_member_skip(of, om + p, kd);
        lemma_member_skip(om, p, kd);
    }
    // filename
    lemma_member_skip(od, of + (om + p), kf);
    if let Some(d) = file {
        assert(of =~= seq![(kf, jstr(d@))]);
        lemma_member_first(kf, jstr(d@), om + p);
    } else {
        lemma_member_skip(of, om + p, kf);
        lemma_member_skip(om, p, kf);
    }
    // metainfo
    lemma_member_skip(od, of + (om + p), km);
    lemma_member_skip(of, om + p, km);
    if let Some(d) = meta {
        assert(om =~= seq![(km, jstr(d@))]);
        lemma_member_first(km, jstr(d@), p);
    } else {
        lemma_member_skip(om, p, km);
    }
    // paused
    lemma_member_skip(od, of + (om + p), kp);
    lemma_member_skip(of, om + p, kp);
    lemma_member_skip(om, p, kp);
}

} // verus!
