//! The client's configuration.
use vstd::prelude::*;

verus! {

/// A folder on the server, with its label and where it is mounted locally.
pub struct DirMapping {
    pub label: String,
    pub remote_path: String,
    pub local_path: Option<String>,
}

/// How to reach the server and how its download folders map to local ones.
pub struct Config {
    /// URL of the Transmission RPC endpoint.
    pub connection_string: String,
    pub directories: Vec<DirMapping>,
    /// Base download folder as the server sees it.
    pub remote_base_dir: String,
    /// The same folder as mounted on this machine.
    pub local_base_dir: String,
}

} // verus!
