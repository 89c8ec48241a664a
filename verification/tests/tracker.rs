use bittorrent_core::torrent::tracker::Peer;
use bittorrent_core::torrent::tracker::TrackerConfig;
use bittorrent_core::torrent::tracker::TrackerError;
use bittorrent_core::torrent::tracker::parse_tracker_response;
use bittorrent_core::torrent::tracker::tracker_url;
use bittorrent_core::torrent::tracker::urlencode;
use bittorrent_core::bencode::decoder::BencodeError;
use bittorrent_core::utils::peer_id_to_string;
use bittorrent_core::utils::serialize_peer_id;

#[test]
fn test_urlencode_every_byte() {
    assert_eq!(urlencode(&[0x01, 0xab, 0xff]), "%01%ab%ff");
    assert_eq!(urlencode(&[]), "");
}

#[test]
fn test_peer_id_strings() {
    let id = [0x11u8; 20];
    assert_eq!(peer_id_to_string(&id), "11".repeat(20));
    // the short display form keeps only the first twenty hex digits
    assert_eq!(serialize_peer_id(&id), "11".repeat(10));
    assert_eq!(serialize_peer_id(&[0xabu8, 0xcd]), "abcd");
}

#[test]
fn test_tracker_url_composition() {
    let config = TrackerConfig::new([0x11u8; 20]);
    assert_eq!(config.port, 6881);
    assert!(config.compact);
    let url = tracker_url("http://t/ann", &[0xAAu8; 20], 42, &config);
    let expected = format!(
        "http://t/ann?peer_id={}&port=6881&uploaded=0&downloaded=0&left=42&compact=1&info_hash={}",
        "%11".repeat(20),
        "%aa".repeat(20)
    );
    assert_eq!(url, expected);
}

#[test]
fn test_parse_compact_peers() {
    let body = b"d5:peers12:\x7f\x00\x00\x01\x1f\x90\x0a\x00\x00\x02\x00\x50e";
    let peers = parse_tracker_response(body).unwrap();
    assert_eq!(peers.len(), 2);
    assert_eq!(peers[0], Peer { ip: [127, 0, 0, 1], port: 8080 });
    assert_eq!(peers[1], Peer { ip: [10, 0, 0, 2], port: 80 });
    assert_eq!(peers[0].to_display_string(), "127.0.0.1:8080");
}

#[test]
fn test_tracker_failure_reason() {
    let body = b"d14:failure reason4:nopee";
    let err = parse_tracker_response(body).unwrap_err();
    assert_eq!(err, TrackerError::TrackerFailure(b"nope".to_vec()));
}

#[test]
fn test_bad_tracker_responses() {
    // not a dictionary
    assert_eq!(
        parse_tracker_response(b"l4:spame").unwrap_err(),
        TrackerError::BadTrackerResponse
    );
    // no peers entry
    assert_eq!(parse_tracker_response(b"de").unwrap_err(), TrackerError::BadTrackerResponse);
    // a peer list that is not whole 6-byte records
    assert_eq!(
        parse_tracker_response(b"d5:peers5:\x01\x02\x03\x04\x05e").unwrap_err(),
        TrackerError::BadTrackerResponse
    );
    // not bencode at all
    assert_eq!(
        parse_tracker_response(b"hello").unwrap_err(),
        TrackerError::Bencode(BencodeError::UnhandledPrefix(b'h'))
    );
}
