use vstd::prelude::*;

use crate::path::SongPath;

verus! {

/// What probing reports about one song, gathered for display: its
/// location, its tags as key/value pairs in the order the probe
/// yielded them, and the codec's descriptive name.
#[derive(Debug)]
pub struct Info {
    pub path: SongPath,
    pub metadata: Vec<(String, String)>,
    pub codec: String,
}

impl Info {
    /// Gathers one song's display record.
    pub fn new(path: SongPath, metadata: Vec<(String, String)>, codec: String) -> (r: Info)
        ensures
            r.path@ == path@,
            r.metadata@ == metadata@,
            r.codec@ == codec@,
    {
        Info { path, metadata, codec }
    }
}

} // verus!
