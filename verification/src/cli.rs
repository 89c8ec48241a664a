//! Command-line argument shapes. Parsing the process's arguments into
//! these is the surrounding program's work.

use vstd::prelude::*;

verus! {

/// Arguments of the command-line client.
#[derive(Debug, PartialEq, Eq)]
pub struct Args {
    pub command: Command,
}

/// The subcommands of the command-line client.
#[derive(Debug, PartialEq, Eq)]
pub enum Command {
    /// Decode a bencoded string.
    Decode { input: String },
    /// Encode a string to its bencoded form.
    Encode { input: String },
    /// Describe a torrent file.
    Info { path: String },
    /// List the torrent's peers from its tracker.
    Peers { path: String },
    /// Handshake with one peer.
    Handshake { path: String, peer: String },
    /// Download one piece to a file.
    DownloadPiece { path: String, piece_index: usize, output: String },
    /// Download the whole torrent to a file.
    Download { output: String, path: String },
    /// Parse a magnet link.
    MagnetParse { magnet_link: String },
    /// Handshake with a peer found through a magnet link.
    MagnetHandshake { magnet_link: String },
}

} // verus!
