//! A verified core for reading BitTorrent metadata and talking to UDP
//! trackers.
//!
//! The crate decodes the bencode serialization format while recording the
//! byte span of every node, projects the decoded tree into typed torrent
//! metadata (deriving the info hash from the raw bytes of the `info`
//! sub-tree), and models the UDP tracker connect/announce handshake as a
//! pure state machine. All I/O is left to the caller.

pub mod bencode;
pub mod peers;
pub mod torrent;
pub mod torrentlist;
pub mod tracker;
pub mod wire;
