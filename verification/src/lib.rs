//! A peer-to-peer brute-force search for SHA-256 preimages.
//!
//! A problem names an alphabet, a lexicographic range of candidate strings,
//! and a target digest; the range algebra splits the range into balanced
//! parts, merges adjacent ones, and keeps a leader's accounting map of
//! per-part search states. The search engine enumerates candidates in
//! length-then-value order and checks each digest. Protocol decision
//! functions turn a graph of peers into a rooted tree, distribute parts
//! down the tree, and aggregate results back up; the surrounding process
//! (sockets, threads, the command loop) lives outside this library.

pub mod alpha;
pub mod communication;
pub mod laws;
pub mod messages;
pub mod parts;
pub mod problem;
pub mod utils;
