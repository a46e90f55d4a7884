//! A verified core for curating a personal audio-file collection.
//!
//! The library finds duplicate songs by three fingerprinting strategies
//! (file name, title tag, decoded stream), resolves the canonical location
//! a song should occupy given its tags, and plans the directory-creation
//! and move transactions that bring a library into that layout.
//!
//! All filesystem access, media probing and rendering live outside this
//! crate; the library works on plain values (paths and tags as bytes,
//! packet payloads as byte buffers) handed in by its caller.

pub mod cli;
pub mod duplicates;
pub mod error;
pub mod fingerprint;
pub mod info;
pub mod path;
pub mod song;
pub mod sort;
pub mod stats;

pub use error::Error;
