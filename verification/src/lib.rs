//! Core of a BitTorrent (BEP-3) downloading client: a byte-exact bencode
//! codec, the torrent metainfo model with its info-hash, a magnet-URI parser,
//! the tracker request/response logic, the peer-wire message framer with the
//! handshake and block-transfer rules, and the piece download coordinator.
//!
//! Network and file I/O live outside this library; everything here is a
//! function from plain values to plain values, with its contract.

pub mod bencode;
pub mod cli;
pub mod decode;
pub mod torrent;
pub mod utils;

pub use bencode::bvalue::BValue;
