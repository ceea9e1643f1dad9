//! Verified core of a Transmission remote-control client: the data model of the
//! RPC protocol, the human-readable formatting of sizes, speeds and times, the
//! file tree of a torrent, the per-category statistics of the torrent list and
//! the decisions of the command loop.
mod text;

pub mod commands;
pub mod config;
pub mod format;
pub mod json;
pub mod listing;
pub mod magnet;
pub mod requests;
pub mod rpc;
pub mod stats;
pub mod tree;
pub mod ui;

pub use commands::TorrentCmd;
pub use config::{Config, DirMapping};
pub use format::{format_download_speed, format_eta, format_size, format_time};
pub use rpc::{File, FileStats, FreeSpace, RpcResponse, SessionStats, Stats, Tracker, TrackerStats};
pub use tree::{build_tree, do_build_tree, get_children, Node};
