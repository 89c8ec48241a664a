//! The torrent domain: metainfo, magnet links, peer-wire messages, the
//! handshake and block-transfer rules, tracker exchanges, and the piece
//! download coordinator.

pub mod download;
pub mod info;
pub mod magnet_link;
pub mod message;
pub mod metainfo;
pub mod peer;
pub mod tracker;

use vstd::prelude::*;

use crate::bencode::bvalue::BNode;
use crate::bencode::bvalue::enc;
use crate::bencode::bvalue::entries_lookup;
use crate::bencode::decoder::spec_decode;
use crate::torrent::info::TorrentInfo;
use crate::torrent::metainfo::MetainfoError;
use crate::torrent::metainfo::MetainfoField;
use crate::torrent::metainfo::TorrentMetainfo;
use crate::torrent::metainfo::encode_info;
use crate::torrent::metainfo::info_node;
use crate::torrent::metainfo::key_announce;
use crate::torrent::metainfo::metainfo_matches;
use crate::torrent::metainfo::spec_metainfo_err;
use crate::utils::sha1_digest;
use crate::utils::sha1_of;

verus! {

/// A torrent that must name its tracker: a metainfo whose `announce` field
/// is required.
#[derive(Debug, PartialEq, Eq, Clone)]
pub struct Torrent {
    pub announce: String,
    pub info: TorrentInfo,
}

/// Whether the decoded file names a tracker at all.
pub open spec fn has_announce(b: Seq<u8>) -> bool {
    spec_decode(b) matches Ok(node) && node matches BNode::Dict(es) && entries_lookup(
        es,
        key_announce(),
    ) is Some
}

impl Torrent {
    /// Parses a metainfo file whose `announce` field is required.
    pub fn from_bytes(bytes: &[u8]) -> (r: Result<Self, MetainfoError>)
        ensures
            r is Ok <==> (spec_metainfo_err(bytes@) is None && has_announce(bytes@)),
            r matches Ok(t) ==> spec_decode(bytes@) matches Ok(node) && metainfo_matches(
                node,
                TorrentMetainfo { announce: Some(t.announce), info: t.info },
            ),
            r matches Err(e) ==> (match spec_metainfo_err(bytes@) {
                Some(e2) => e == e2,
                None => e == MetainfoError::MalformedMetainfo(MetainfoField::Announce),
            }),
    {
        let t = match TorrentMetainfo::from_bytes(bytes) {
            Ok(t) => t,
            Err(e) => {
                return Err(e);
            },
        };
        match t.announce {
            Some(announce) => Ok(Torrent { announce, info: t.info }),
            None => Err(MetainfoError::MalformedMetainfo(MetainfoField::Announce)),
        }
    }

    /// The 20-byte SHA-1 of the canonical re-encoding of the info
    /// dictionary.
    pub fn info_hash(&self) -> (r: [u8; 20])
        requires
            self.info.length <= i64::MAX as u64,
        ensures
            r@ == sha1_of(enc(info_node(self.info))),
    {
        let encoded = encode_info(&self.info);
        sha1_digest(encoded.as_slice())
    }
}

} // verus!
