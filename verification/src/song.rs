use vstd::prelude::*;

use crate::error::Error;
use crate::path::SongPath;

verus! {

/// What the probing collaborator reports for one song's container: the
/// artist and title tags where present, the codec name, and the decoded
/// packet payloads in read order. A decode failure other than a clean
/// end-of-stream replaces the payloads with the error it raised.
#[derive(Debug)]
pub struct ProbeData {
    pub artist: Option<Vec<u8>>,
    pub title: Option<Vec<u8>>,
    pub codec: String,
    pub packets: Result<Vec<Vec<u8>>, Error>,
}

/// One candidate song: its current location together with the result of
/// probing its container. A song whose container could not be opened or
/// parsed carries that error instead of probe data.
#[derive(Debug)]
pub struct SongRecord {
    pub path: SongPath,
    pub probe: Result<ProbeData, Error>,
}

} // verus!
