use vstd::prelude::*;

use crate::path::SongPath;

verus! {

/// The verbosity levels a run can be asked for.
#[derive(Clone, Copy, Debug, PartialEq, Eq)]
pub enum LogLevel {
    Trace,
    Debug,
    Info,
    Warn,
    Error,
}

/// A parsed invocation: the global options and the chosen command.
/// The boundary that parses the real command line mirrors these types
/// and converts into them.
#[derive(Debug)]
pub struct Cli {
    pub log_level: LogLevel,
    pub json: bool,
    pub command: Command,
}

/// The commands the tool offers.
#[derive(Debug)]
pub enum Command {
    DetectDupe(DetectDupe),
    Info(Info),
    Stats(Stats),
    Sort(Sort),
    Hash(Hash),
}

/// Detect duplicate music files under a root directory, by any
/// combination of the three strategies.
#[derive(Debug)]
pub struct DetectDupe {
    pub metadata: bool,
    pub filename: bool,
    pub stream: bool,
    pub root: SongPath,
}

/// Show what is known about one song.
#[derive(Debug)]
pub struct Info {
    pub nonstandard: bool,
    pub song: SongPath,
}

/// Show a census of a library, listing the requested categories.
#[derive(Debug)]
pub struct Stats {
    pub all: bool,
    pub tagged: bool,
    pub untagged: bool,
    pub sorted: bool,
    pub unsorted: bool,
    pub root: SongPath,
}

/// Plan the transactions that sort a library, and optionally apply
/// them.
#[derive(Debug)]
pub struct Sort {
    pub apply: bool,
    pub root: SongPath,
}

/// Show the stream digest of one song.
#[derive(Debug)]
pub struct Hash {
    pub song: SongPath,
}

} // verus!
