//! The client's configuration: the metainfo file to download.
use vstd::prelude::*;

verus! {

/// What the client is asked to do: download the torrent described by `file`.
#[derive(Debug, Clone)]
pub struct Config {
    /// Path of the metainfo (.torrent) file.
    pub file: String,
}

impl Config {
    /// The configuration for the metainfo file at `file`.
    pub fn new(file: String) -> (r: Config)
        ensures
            r.file@ == file@,
    {
        Config { file }
    }
}

} // verus!
