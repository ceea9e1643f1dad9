//! The records of the Transmission RPC protocol, as plain values.
use vstd::prelude::*;

verus! {

/// A file of a torrent as the `torrent-get` method reports it.
pub struct File {
    /// Slash-separated path of the file inside the torrent.
    pub name: String,
    /// Length in bytes.
    pub length: u64,
    /// Bytes downloaded so far.
    pub bytes_completed: u64,
}

} // verus!

verus! {

/// The envelope of every RPC reply: the method's arguments and the result
/// string (`"success"` or an error message).
pub struct RpcResponse<T> {
    pub arguments: T,
    pub result: String,
}

/// Reply of the `free-space` method.
pub struct FreeSpace {
    pub path: String,
    pub size_bytes: u64,
}

/// Transfer statistics over a period (current session or all time).
pub struct Stats {
    pub upload_bytes: u64,
    pub download_bytes: u64,
    pub files_added: u64,
    pub session_count: u64,
    pub seconds_active: u64,
}

/// Reply of the `session-stats` method.
pub struct SessionStats {
    pub active_torrent_count: u64,
    pub download_speed: u64,
    pub paused_torrent_count: u64,
    pub torrent_count: u64,
    pub upload_speed: u64,
    pub current_stats: Stats,
    pub cumulative_stats: Stats,
}

/// Per-file download settings and progress.
pub struct FileStats {
    pub wanted: bool,
    pub priority: i8,
    pub bytes_completed: u64,
}

/// What a tracker last reported.
pub struct TrackerStats {
    pub leecher_count: i64,
    pub id: u64,
    pub host: String,
    pub scrape: String,
    pub seeder_count: i64,
    pub last_announce_peer_count: u64,
    pub last_announce_result: String,
    pub last_announce_time: u64,
}

/// A tracker of a torrent.
pub struct Tracker {
    pub id: u64,
    pub announce: String,
    pub scrape: String,
    pub tier: u64,
}

} // verus!
