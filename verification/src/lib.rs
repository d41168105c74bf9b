//! Engine for rejoining local files to a torrent-style content manifest.
//!
//! The manifest fixes an ordered list of declared files and a list of
//! fixed-size piece hashes over their concatenation (the virtual stream).
//! This crate holds the verified core: pairing heuristics between local
//! files and manifest entries, piece-level hash verification that spans
//! file boundaries and tolerates per-file byte offsets, the brute-force
//! search that recovers a lost byte alignment, and the construction of
//! manifest-conformant output contents.  Console interaction, directory
//! walking and file reads and writes live outside the library and hand
//! it plain values.

pub mod filemapping;
pub mod hashing;
pub mod inventory;
pub mod matching;
pub mod migrator;
pub mod model;
pub mod session;
