//! Resumable single-file transfer over a byte stream: the wire codec, the
//! version and token handshake, transfer planning, and the in-order packet
//! pump whose durable progress lets a broken transfer resume where it stopped.
use vstd::prelude::*;

pub mod client;
pub mod codec;
pub mod db;
pub mod server;
pub mod sizing;
pub mod structs;
pub mod text;
pub mod transfer;
pub mod version;

pub use sizing::{file_size_text, num_packets};
pub use version::{compare_versions, VersionCompatibility};

verus! {

/// Packet size a sender uses when none is chosen: 4 MiB.
pub const DEFAULT_PACKET_SIZE: u64 = 4194304;

/// Smallest packet size a receiver accepts: one million bytes.
pub const MIN_PACKET_SIZE: u64 = 1000000;

} // verus!
