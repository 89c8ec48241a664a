//! Torrent metainfo parsing and the info-hash.
//!
//! A metainfo file is a bencoded dictionary holding an optional `announce`
//! URL and an `info` dictionary with exactly the fields of a single-file
//! torrent: `name`, `length`, `piece length` and `pieces`. The info-hash is
//! the SHA-1 of the canonical re-encoding of the `info` dictionary alone,
//! and identifies the torrent.

use vstd::prelude::*;

use crate::bencode::Bencode;
use crate::bencode::bvalue::BNode;
use crate::bencode::bvalue::BValue;
use crate::bencode::bvalue::bentries_of;
use crate::bencode::bvalue::bnode_of;
use crate::bencode::bvalue::enc;
use crate::bencode::bvalue::entries_get;
use crate::bencode::bvalue::entries_lookup;
use crate::bencode::bvalue::lemma_bentries_of_index;
use crate::bencode::bvalue::lemma_bentries_of_len;
use crate::bencode::decoder::BencodeError;
use crate::bencode::decoder::spec_decode;
use crate::bencode::encoder::Encoder;
use crate::torrent::info::TorrentInfo;
use crate::torrent::magnet_link::MagnetError;
use crate::torrent::magnet_link::MagnetLink;
use crate::torrent::magnet_link::opt_str_view;
use crate::torrent::magnet_link::spec_magnet_parse;
use crate::utils::sha1_digest;
use crate::utils::sha1_of;
use vstd::slice::slice_to_vec;
use vstd::string::StringSliceAdditionalSpecFns;
use vstd::utf8::encode_utf8;
use vstd::utf8::valid_utf8;

verus! {

/// The metainfo field that failed to parse.
#[derive(Debug, PartialEq, Eq, Structural, Clone, Copy)]
pub enum MetainfoField {
    /// The top level is not a dictionary.
    TopLevel,
    Announce,
    Info,
    Name,
    Length,
    PieceLength,
    Pieces,
}

/// A metainfo parsing failure.
#[derive(Debug, PartialEq, Eq, Structural, Clone, Copy)]
pub enum MetainfoError {
    /// The file is not well-formed bencode.
    Bencode(BencodeError),
    /// A required field is missing or has the wrong shape.
    MalformedMetainfo(MetainfoField),
}

/// A parsed metainfo file: the tracker URL, when given, and the typed view
/// over the info dictionary.
#[derive(Debug, PartialEq, Eq, Clone)]
pub struct TorrentMetainfo {
    pub announce: Option<String>,
    pub info: TorrentInfo,
}

pub open spec fn key_announce() -> Seq<u8> {
    seq![97u8, 110, 110, 111, 117, 110, 99, 101]
}

pub open spec fn key_info() -> Seq<u8> {
    seq![105u8, 110, 102, 111]
}

pub open spec fn key_name() -> Seq<u8> {
    seq![110u8, 97, 109, 101]
}

pub open spec fn key_length() -> Seq<u8> {
    seq![108u8, 101, 110, 103, 116, 104]
}

pub open spec fn key_piece_length() -> Seq<u8> {
    seq![112u8, 105, 101, 99, 101, 32, 108, 101, 110, 103, 116, 104]
}

pub open spec fn key_pieces() -> Seq<u8> {
    seq![112u8, 105, 101, 99, 101, 115]
}

/// Why an info dictionary is rejected, or nothing when it is accepted:
/// `name` a UTF-8 byte string, `length` a non-negative integer, `piece
/// length` a positive integer fitting 32 bits, `pieces` a nonempty byte
/// string of whole 20-byte hashes.
pub open spec fn spec_info_err(ies: Seq<(Seq<u8>, BNode)>) -> Option<MetainfoError> {
    if !(entries_lookup(ies, key_name()) matches Some(BNode::Bytes(nb)) && valid_utf8(nb)) {
        Some(MetainfoError::MalformedMetainfo(MetainfoField::Name))
    } else if !(entries_lookup(ies, key_length()) matches Some(BNode::Int(l)) && l >= 0) {
        Some(MetainfoError::MalformedMetainfo(MetainfoField::Length))
    } else if !(entries_lookup(ies, key_piece_length()) matches Some(BNode::Int(pl)) && 1 <= pl
        && pl <= u32::MAX) {
        Some(MetainfoError::MalformedMetainfo(MetainfoField::PieceLength))
    } else if !(entries_lookup(ies, key_pieces()) matches Some(BNode::Bytes(pb)) && pb.len() > 0
        && pb.len() % 20 == 0) {
        Some(MetainfoError::MalformedMetainfo(MetainfoField::Pieces))
    } else {
        None
    }
}

/// Why a metainfo file is rejected, or nothing when it is accepted.
pub open spec fn spec_metainfo_err(b: Seq<u8>) -> Option<MetainfoError> {
    match spec_decode(b) {
        Err(e) => Some(MetainfoError::Bencode(e)),
        Ok(node) => match node {
            BNode::Dict(es) => {
                let a = entries_lookup(es, key_announce());
                if !(a is None || (a matches Some(BNode::Bytes(ab)) && valid_utf8(ab))) {
                    Some(MetainfoError::MalformedMetainfo(MetainfoField::Announce))
                } else {
                    match entries_lookup(es, key_info()) {
                        Some(BNode::Dict(ies)) => spec_info_err(ies),
                        _ => Some(MetainfoError::MalformedMetainfo(MetainfoField::Info)),
                    }
                }
            },
            _ => Some(MetainfoError::MalformedMetainfo(MetainfoField::TopLevel)),
        },
    }
}

/// The typed info fields are exactly the fields of the info dictionary.
pub open spec fn info_matches(ies: Seq<(Seq<u8>, BNode)>, info: TorrentInfo) -> bool {
    &&& entries_lookup(ies, key_name()) matches Some(BNode::Bytes(nb)) && encode_utf8(info.name@)
        == nb
    &&& entries_lookup(ies, key_length()) matches Some(BNode::Int(l)) && info.length as int
        == l as int
    &&& entries_lookup(ies, key_piece_length()) matches Some(BNode::Int(pl))
        && info.piece_length as int == pl as int
    &&& entries_lookup(ies, key_pieces()) matches Some(BNode::Bytes(pb)) && info.pieces@ == pb
}

/// The parsed metainfo is exactly the projection of the decoded value.
pub open spec fn metainfo_matches(node: BNode, t: TorrentMetainfo) -> bool {
    &&& node matches BNode::Dict(es)
    &&& match entries_lookup(node->Dict_0, key_announce()) {
        Some(BNode::Bytes(ab)) => t.announce matches Some(astr) && encode_utf8(astr@) == ab,
        _ => t.announce is None,
    }
    &&& entries_lookup(node->Dict_0, key_info()) matches Some(BNode::Dict(ies)) && info_matches(
        ies,
        t.info,
    )
}

/// The info dictionary a typed info re-encodes to: its four fields under
/// their keys in ascending key order.
pub open spec fn info_node(info: TorrentInfo) -> BNode {
    BNode::Dict(
        seq![
            (key_length(), BNode::Int(info.length as i64)),
            (key_name(), BNode::Bytes(encode_utf8(info.name@))),
            (key_piece_length(), BNode::Int(info.piece_length as i64)),
            (key_pieces(), BNode::Bytes(info.pieces@)),
        ],
    )
}

/// Relies on `String::from_utf8`: accepts exactly valid UTF-8, and the
/// accepted string's UTF-8 form is the input bytes unchanged.
#[verifier::external_body]
fn string_from_utf8(v: Vec<u8>) -> (r: Option<String>)
    ensures
        match r {
            Some(s) => valid_utf8(v@) && encode_utf8(s@) == v@,
            None => !valid_utf8(v@),
        },
{
    match String::from_utf8(v) {
        Ok(s) => Some(s),
        Err(_) => None,
    }
}

impl TorrentMetainfo {
    /// Parses a metainfo file from its raw bytes.
    pub fn from_bytes(bytes: &[u8]) -> (r: Result<Self, MetainfoError>)
        ensures
            r is Ok <==> spec_metainfo_err(bytes@) is None,
            r matches Ok(t) ==> spec_decode(bytes@) matches Ok(node) && metainfo_matches(node, t),
            r matches Err(e) ==> spec_metainfo_err(bytes@) == Some(e),
    {
        let v = match Bencode::decode_bytes(bytes) {
            Ok(v) => v,
            Err(e) => {
                return Err(MetainfoError::Bencode(e));
            },
        };
        let es = match v {
            BValue::Dict(es) => es,
            _ => {
                return Err(MetainfoError::MalformedMetainfo(MetainfoField::TopLevel));
            },
        };
        let ghost ges = bentries_of(es@);
        let ka = vec![97u8, 110, 110, 111, 117, 110, 99, 101];
        proof {
            assert(ka@ =~= key_announce());
        }
        let announce: Option<String> = match entries_get(&es, ka.as_slice()) {
            None => None,
            Some(av) => match av {
                BValue::Bytes(ab) => {
                    match string_from_utf8(slice_to_vec(ab.as_slice())) {
                        Some(s) => Some(s),
                        None => {
                            return Err(
                                MetainfoError::MalformedMetainfo(MetainfoField::Announce),
                            );
                        },
                    }
                },
                _ => {
                    return Err(MetainfoError::MalformedMetainfo(MetainfoField::Announce));
                },
            },
        };
        let ki = vec![105u8, 110, 102, 111];
        proof {
            assert(ki@ =~= key_info());
        }
        let ies = match entries_get(&es, ki.as_slice()) {
            Some(iv) => match iv {
                BValue::Dict(ies) => ies,
                _ => {
                    return Err(MetainfoError::MalformedMetainfo(MetainfoField::Info));
                },
            },
            None => {
                return Err(MetainfoError::MalformedMetainfo(MetainfoField::Info));
            },
        };
        let ghost gies = bentries_of(ies@);
        let kn = vec![110u8, 97, 109, 101];
        proof {
            assert(kn@ =~= key_name());
        }
        let name = match entries_get(ies, kn.as_slice()) {
            Some(nv) => match nv {
                BValue::Bytes(nb) => {
                    match string_from_utf8(slice_to_vec(nb.as_slice())) {
                        Some(s) => s,
                        None => {
                            return Err(MetainfoError::MalformedMetainfo(MetainfoField::Name));
                        },
                    }
                },
                _ => {
                    return Err(MetainfoError::MalformedMetainfo(MetainfoField::Name));
                },
            },
            None => {
                return Err(MetainfoError::MalformedMetainfo(MetainfoField::Name));
            },
        };
        let kl = vec![108u8, 101, 110, 103, 116, 104];
        proof {
            assert(kl@ =~= key_length());
        }
        let length: u64 = match entries_get(ies, kl.as_slice()) {
            Some(lv) => match lv {
                BValue::Int(l) => {
                    if *l >= 0 {
                        *l as u64
                    } else {
                        return Err(MetainfoError::MalformedMetainfo(MetainfoField::Length));
                    }
                },
                _ => {
                    return Err(MetainfoError::MalformedMetainfo(MetainfoField::Length));
                },
            },
            None => {
                return Err(MetainfoError::MalformedMetainfo(MetainfoField::Length));
            },
        };
        let kp = vec![112u8, 105, 101, 99, 101, 32, 108, 101, 110, 103, 116, 104];
        proof {
            assert(kp@ =~= key_piece_length());
        }
        let piece_length: u32 = match entries_get(ies, kp.as_slice()) {
            Some(pv) => match pv {
                BValue::Int(pl) => {
                    if 1 <= *pl && *pl <= u32::MAX as i64 {
                        *pl as u32
                    } else {
                        return Err(
                            MetainfoError::MalformedMetainfo(MetainfoField::PieceLength),
                        );
                    }
                },
                _ => {
                    return Err(MetainfoError::MalformedMetainfo(MetainfoField::PieceLength));
                },
            },
            None => {
                return Err(MetainfoError::MalformedMetainfo(MetainfoField::PieceLength));
            },
        };
        let ks = vec![112u8, 105, 101, 99, 101, 115];
        proof {
            assert(ks@ =~= key_pieces());
        }
        let pieces: Vec<u8> = match entries_get(ies, ks.as_slice()) {
            Some(sv) => match sv {
                BValue::Bytes(pb) => {
                    if pb.len() > 0 && pb.len() % 20 == 0 {
                        slice_to_vec(pb.as_slice())
                    } else {
                        return Err(MetainfoError::MalformedMetainfo(MetainfoField::Pieces));
                    }
                },
                _ => {
                    return Err(MetainfoError::MalformedMetainfo(MetainfoField::Pieces));
                },
            },
            None => {
                return Err(MetainfoError::MalformedMetainfo(MetainfoField::Pieces));
            },
        };
        Ok(TorrentMetainfo { announce, info: TorrentInfo { name, length, piece_length, pieces } })
    }

    /// Builds the skeleton metainfo a magnet link carries: the tracker URL
    /// and display name, with no piece table.
    pub fn from_magnet(magnet_link: &str) -> (r: Result<Self, MagnetError>)
        ensures
            match spec_magnet_parse(magnet_link@) {
                Ok(v) => r matches Ok(t) && opt_str_view(t.announce) == v.tracker && t.info.name@
                    == (match v.name {
                    Some(nm) => nm,
                    None => Seq::<char>::empty(),
                }) && t.info.length == 0 && t.info.piece_length == 0 && t.info.pieces@ == Seq::<
                    u8,
                >::empty(),
                Err(e) => r matches Err(e2) && e2 == e,
            },
    {
        let magnet = match MagnetLink::parse(magnet_link) {
            Ok(m) => m,
            Err(e) => {
                return Err(e);
            },
        };
        let name = match magnet.name {
            Some(s) => s,
            None => String::new(),
        };
        Ok(
            TorrentMetainfo {
                announce: magnet.tracker,
                info: TorrentInfo { name, length: 0, piece_length: 0, pieces: Vec::new() },
            },
        )
    }

    /// The 20-byte SHA-1 of the canonical re-encoding of the info
    /// dictionary: the torrent's identity.
    pub fn info_hash(&self) -> (r: Result<[u8; 20], MetainfoError>)
        requires
            self.info.length <= i64::MAX as u64,
        ensures
            r matches Ok(h) && h@ == sha1_of(enc(info_node(self.info))),
    {
        let encoded = encode_info(&self.info);
        Ok(sha1_digest(encoded.as_slice()))
    }
}

/// The canonical bencode bytes of an info dictionary.
pub fn encode_info(info: &TorrentInfo) -> (r: Vec<u8>)
    requires
        info.length <= i64::MAX as u64,
    ensures
        r@ == enc(info_node(*info)),
{
    let mut es: Vec<(Vec<u8>, BValue)> = Vec::new();
    let kl = vec![108u8, 101, 110, 103, 116, 104];
    let kn = vec![110u8, 97, 109, 101];
    let kp = vec![112u8, 105, 101, 99, 101, 32, 108, 101, 110, 103, 116, 104];
    let ks = vec![112u8, 105, 101, 99, 101, 115];
    proof {
        assert(kl@ =~= key_length());
        assert(kn@ =~= key_name());
        assert(kp@ =~= key_piece_length());
        assert(ks@ =~= key_pieces());
    }
    let name_bytes = slice_to_vec(info.name.as_str().as_bytes());
    es.push((kl, BValue::Int(info.length as i64)));
    es.push((kn, BValue::Bytes(name_bytes)));
    es.push((kp, BValue::Int(info.piece_length as i64)));
    es.push((ks, BValue::Bytes(slice_to_vec(info.pieces.as_slice()))));
    let d = BValue::Dict(es);
    proof {
        let dv = d->Dict_0;
        lemma_bentries_of_len(dv@);
        lemma_bentries_of_index(dv@, 0);
        lemma_bentries_of_index(dv@, 1);
        lemma_bentries_of_index(dv@, 2);
        lemma_bentries_of_index(dv@, 3);
        assert(bentries_of(dv@) =~= info_node(*info)->Dict_0);
        assert(bnode_of(d) == info_node(*info));
    }
    let mut encoder = Encoder::new();
    encoder.encode_value(&d);
    encoder.output
}

} // verus!
