//! Detection of renamed and copied files between two directory trees.
//!
//! Two trees are compared through a pair of `Server` oracles, each of which
//! can enumerate a tree's files grouped by their (size, modification time)
//! fingerprint and compute a content checksum for a single file. The match
//! resolver pairs every destination file with a source candidate of the same
//! fingerprint (and, when enabled, the same checksum), classifies each pair
//! as a rename or a copy, and emits the renames as a plan. An oracle is
//! either in-process or reached over a line-oriented wire protocol spoken
//! with a peer process; the codec for that protocol lives here as well.

pub mod args;
pub mod digest;
pub mod executor;
pub mod laws;
pub mod meta;
pub mod resolver;
pub mod server;
pub mod wire;
