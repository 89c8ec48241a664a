use bittorrent_core::torrent::Torrent;
use bittorrent_core::torrent::info::TorrentInfo;
use bittorrent_core::torrent::metainfo::MetainfoError;
use bittorrent_core::torrent::metainfo::MetainfoField;
use bittorrent_core::torrent::metainfo::TorrentMetainfo;
use sha1::Digest;
use sha1::Sha1;

fn sample_pieces() -> Vec<u8> {
    let h1: [u8; 20] = Sha1::digest(b"ab").into();
    let h2: [u8; 20] = Sha1::digest(b"c").into();
    let mut pieces = h1.to_vec();
    pieces.extend_from_slice(&h2);
    pieces
}

fn sample_torrent_bytes() -> Vec<u8> {
    let mut bytes = b"d8:announce12:http://t/ann4:infod6:lengthi3e4:name1:a12:piece lengthi2e6:pieces40:".to_vec();
    bytes.extend_from_slice(&sample_pieces());
    bytes.extend_from_slice(b"ee");
    bytes
}

#[test]
fn test_info_hash_matches_canonical_encoding() {
    let info = TorrentInfo {
        name: "a".to_string(),
        length: 3,
        piece_length: 2,
        pieces: sample_pieces(),
    };
    let meta = TorrentMetainfo { announce: None, info };
    let hash = meta.info_hash().unwrap();

    let mut encoded = b"d6:lengthi3e4:name1:a12:piece lengthi2e6:pieces40:".to_vec();
    encoded.extend_from_slice(&sample_pieces());
    encoded.push(b'e');
    let expected: [u8; 20] = Sha1::digest(&encoded).into();
    assert_eq!(hash, expected);
}

#[test]
fn test_from_bytes_projects_all_fields() {
    let meta = TorrentMetainfo::from_bytes(&sample_torrent_bytes()).unwrap();
    assert_eq!(meta.announce.as_deref(), Some("http://t/ann"));
    assert_eq!(meta.info.name, "a");
    assert_eq!(meta.info.length, 3);
    assert_eq!(meta.info.piece_length, 2);
    assert_eq!(meta.info.pieces, sample_pieces());
}

#[test]
fn test_from_bytes_announce_is_optional() {
    let mut bytes = b"d4:infod6:lengthi3e4:name1:a12:piece lengthi2e6:pieces40:".to_vec();
    bytes.extend_from_slice(&sample_pieces());
    bytes.extend_from_slice(b"ee");
    let meta = TorrentMetainfo::from_bytes(&bytes).unwrap();
    assert_eq!(meta.announce, None);
    // but the stricter Torrent form requires it
    let err = Torrent::from_bytes(&bytes).unwrap_err();
    assert_eq!(err, MetainfoError::MalformedMetainfo(MetainfoField::Announce));
}

#[test]
fn test_from_bytes_malformed_fields() {
    // top level is no dictionary
    assert_eq!(
        TorrentMetainfo::from_bytes(b"i42e").unwrap_err(),
        MetainfoError::MalformedMetainfo(MetainfoField::TopLevel)
    );
    // info missing
    assert_eq!(
        TorrentMetainfo::from_bytes(b"d8:announce3:urle").unwrap_err(),
        MetainfoError::MalformedMetainfo(MetainfoField::Info)
    );
    // length missing from info
    assert_eq!(
        TorrentMetainfo::from_bytes(b"d4:infod4:name1:aee").unwrap_err(),
        MetainfoError::MalformedMetainfo(MetainfoField::Length)
    );
    // pieces not a whole number of 20-byte hashes
    assert_eq!(
        TorrentMetainfo::from_bytes(
            b"d4:infod6:lengthi3e4:name1:a12:piece lengthi2e6:pieces3:abcee"
        )
        .unwrap_err(),
        MetainfoError::MalformedMetainfo(MetainfoField::Pieces)
    );
    // piece length must be positive
    let mut bytes = b"d4:infod6:lengthi3e4:name1:a12:piece lengthi0e6:pieces40:".to_vec();
    bytes.extend_from_slice(&sample_pieces());
    bytes.extend_from_slice(b"ee");
    assert_eq!(
        TorrentMetainfo::from_bytes(&bytes).unwrap_err(),
        MetainfoError::MalformedMetainfo(MetainfoField::PieceLength)
    );
}

#[test]
fn test_torrent_from_bytes_and_info_hash() {
    let t = Torrent::from_bytes(&sample_torrent_bytes()).unwrap();
    assert_eq!(t.announce, "http://t/ann");
    let meta = TorrentMetainfo::from_bytes(&sample_torrent_bytes()).unwrap();
    assert_eq!(t.info_hash(), meta.info_hash().unwrap());
}

#[test]
fn test_piece_sizes() {
    // last piece short: 7 bytes in pieces of 3 makes 3, 3, 1
    let info = TorrentInfo {
        name: "x".to_string(),
        length: 7,
        piece_length: 3,
        pieces: vec![0; 60],
    };
    assert_eq!(info.total_pieces(), 3);
    assert_eq!(info.piece_size(0), 3);
    assert_eq!(info.piece_size(1), 3);
    assert_eq!(info.piece_size(2), 1);
    assert_eq!(info.piece_size(0) + info.piece_size(1) + info.piece_size(2), 7);

    // an exact multiple leaves the last piece full
    let info = TorrentInfo {
        name: "x".to_string(),
        length: 6,
        piece_length: 3,
        pieces: vec![0; 40],
    };
    assert_eq!(info.total_pieces(), 2);
    assert_eq!(info.piece_size(0), 3);
    assert_eq!(info.piece_size(1), 3);
}

#[test]
fn test_piece_hashes_splits_twenty_byte_chunks() {
    let info = TorrentInfo {
        name: "x".to_string(),
        length: 3,
        piece_length: 2,
        pieces: sample_pieces(),
    };
    let hashes = info.piece_hashes();
    assert_eq!(hashes.len(), 2);
    let h1: [u8; 20] = Sha1::digest(b"ab").into();
    let h2: [u8; 20] = Sha1::digest(b"c").into();
    assert_eq!(hashes[0], h1);
    assert_eq!(hashes[1], h2);
}

#[test]
fn test_metainfo_accepts_unsorted_wire_order() {
    // info before announce on the wire: the decoder orders the keys
    let mut bytes = b"d4:infod6:lengthi3e4:name1:a12:piece lengthi2e6:pieces40:".to_vec();
    bytes.extend_from_slice(&sample_pieces());
    bytes.extend_from_slice(b"e8:announce12:http://t/anne");
    let meta = TorrentMetainfo::from_bytes(&bytes).unwrap();
    assert_eq!(meta.announce.as_deref(), Some("http://t/ann"));
    assert_eq!(meta.info.length, 3);
}

#[test]
fn test_from_magnet_builds_skeleton() {
    let uri = "magnet:?xt=urn:btih:0123456789abcdef0123456789abcdef01234567&dn=name&tr=http%3A%2F%2Ftracker%2Fannounce";
    let meta = TorrentMetainfo::from_magnet(uri).unwrap();
    assert_eq!(meta.announce.as_deref(), Some("http://tracker/announce"));
    assert_eq!(meta.info.name, "name");
    assert_eq!(meta.info.length, 0);
    assert_eq!(meta.info.piece_length, 0);
    assert!(meta.info.pieces.is_empty());
}
