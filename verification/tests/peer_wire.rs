use bittorrent_core::torrent::message::Message;
use bittorrent_core::torrent::peer::PeerConfig;
use bittorrent_core::torrent::peer::PeerError;
use bittorrent_core::torrent::peer::PieceDownload;
use bittorrent_core::torrent::peer::SessionState;
use bittorrent_core::torrent::peer::bitfield_has_piece;
use bittorrent_core::torrent::peer::build_handshake;
use bittorrent_core::torrent::peer::verify_handshake;

#[test]
fn test_handshake_wire_image() {
    let info_hash = [0xAAu8; 20];
    let peer_id = [0xBBu8; 20];
    let hs = build_handshake(&info_hash, &peer_id);

    let mut expected = vec![19u8];
    expected.extend_from_slice(b"BitTorrent protocol");
    expected.extend_from_slice(&[0, 0, 0, 0, 0, 0x10, 0, 0]);
    expected.extend_from_slice(&[0xAA; 20]);
    expected.extend_from_slice(&[0xBB; 20]);
    assert_eq!(hs.len(), 68);
    assert_eq!(hs, expected);
}

#[test]
fn test_handshake_accepts_matching_reply() {
    let info_hash = [0xAAu8; 20];
    let reply = build_handshake(&info_hash, &[0xCCu8; 20]);
    let pid = verify_handshake(&reply, &info_hash).unwrap();
    assert_eq!(pid, [0xCC; 20]);
}

#[test]
fn test_handshake_protocol_mismatch() {
    let info_hash = [0xAAu8; 20];
    let mut reply = [0u8; 68];
    reply[1..20].copy_from_slice(&b"Invalid protocol!!!!"[..19]);
    reply[28..48].copy_from_slice(&info_hash);
    let err = verify_handshake(&reply, &info_hash).unwrap_err();
    assert_eq!(err, PeerError::HandshakeMismatch);
}

#[test]
fn test_handshake_info_hash_mismatch() {
    let our_hash = [0xAAu8; 20];
    let reply = build_handshake(&[2u8; 20], &[0xCCu8; 20]);
    let err = verify_handshake(&reply, &our_hash).unwrap_err();
    assert_eq!(err, PeerError::HandshakeMismatch);
}

#[test]
fn test_bitfield_bit_layout() {
    // piece i is present iff bit 7 - i % 8 of byte i / 8 is set
    let bits = vec![0b1010_0000u8, 0b0000_0001u8];
    assert!(bitfield_has_piece(&bits, 0));
    assert!(!bitfield_has_piece(&bits, 1));
    assert!(bitfield_has_piece(&bits, 2));
    assert!(!bitfield_has_piece(&bits, 7));
    assert!(bitfield_has_piece(&bits, 15));
    // spare bits past the end advertise nothing
    assert!(!bitfield_has_piece(&bits, 16));
    assert!(!bitfield_has_piece(&bits, 99));
}

#[test]
fn test_session_state_machine() {
    let mut st = SessionState::new();
    assert!(st.am_choking);
    assert!(!st.am_interested);
    assert!(st.peer_choking);
    assert!(!st.peer_interested);

    st.on_message(&Message::Bitfield(vec![0xFF]));
    assert!(bitfield_has_piece(&st.remote_bitfield, 0));
    assert!(bitfield_has_piece(&st.remote_bitfield, 7));

    st.sent_interested();
    assert!(st.am_interested);
    // a keep-alive is transparent
    st.on_message(&Message::KeepAlive);
    assert!(!st.can_request());
    st.on_message(&Message::Unchoke);
    assert!(st.can_request());
    st.on_message(&Message::Choke);
    assert!(!st.can_request());
    st.on_message(&Message::Unchoke);
    st.on_message(&Message::Interested);
    assert!(st.peer_interested);
    st.on_message(&Message::NotInterested);
    assert!(!st.peer_interested);
}

#[test]
fn test_have_marks_one_more_piece() {
    let mut st = SessionState::new();
    st.on_message(&Message::Bitfield(vec![0b1000_0000]));
    assert!(bitfield_has_piece(&st.remote_bitfield, 0));
    assert!(!bitfield_has_piece(&st.remote_bitfield, 5));
    st.on_message(&Message::Have(5));
    assert!(bitfield_has_piece(&st.remote_bitfield, 0));
    assert!(bitfield_has_piece(&st.remote_bitfield, 5));
    assert!(!bitfield_has_piece(&st.remote_bitfield, 1));
    // a have past the advertised range grows the bitfield
    st.on_message(&Message::Have(17));
    assert!(bitfield_has_piece(&st.remote_bitfield, 17));
    assert!(!bitfield_has_piece(&st.remote_bitfield, 16));
    assert!(bitfield_has_piece(&st.remote_bitfield, 0));
}

#[test]
fn test_piece_download() {
    // a mock peer answering every request with 16384 bytes of 0x2A
    let mut dl = PieceDownload::new(0, 16384);
    let req = dl.next_request().unwrap();
    assert_eq!(req, Message::Request { index: 0, begin: 0, length: 16384 });
    let block = vec![0x2Au8; 16384];
    dl.on_piece(0, 0, &block).unwrap();
    assert!(dl.is_complete());
    assert!(dl.next_request().is_none());
    let data = dl.take_data();
    assert_eq!(data.len(), 16384);
    assert!(data.iter().all(|&b| b == 0x2A));
}

#[test]
fn test_multi_block_piece_download() {
    let mut dl = PieceDownload::new(3, 40000);
    let r1 = dl.next_request().unwrap();
    assert_eq!(r1, Message::Request { index: 3, begin: 0, length: 16384 });
    dl.on_piece(3, 0, &vec![1u8; 16384]).unwrap();
    let r2 = dl.next_request().unwrap();
    assert_eq!(r2, Message::Request { index: 3, begin: 16384, length: 16384 });
    dl.on_piece(3, 16384, &vec![2u8; 16384]).unwrap();
    let r3 = dl.next_request().unwrap();
    assert_eq!(r3, Message::Request { index: 3, begin: 32768, length: 40000 - 32768 });
    dl.on_piece(3, 32768, &vec![3u8; 40000 - 32768]).unwrap();
    assert!(dl.is_complete());
    let data = dl.take_data();
    assert_eq!(data.len(), 40000);
    assert_eq!(data[0], 1);
    assert_eq!(data[16384], 2);
    assert_eq!(data[32768], 3);
}

#[test]
fn test_unexpected_piece_is_rejected() {
    let mut dl = PieceDownload::new(0, 16384);
    // wrong piece index
    assert_eq!(dl.on_piece(1, 0, &vec![0u8; 16384]).unwrap_err(), PeerError::UnexpectedPiece);
    // wrong offset
    assert_eq!(dl.on_piece(0, 8, &vec![0u8; 16384]).unwrap_err(), PeerError::UnexpectedPiece);
    // wrong block size
    assert_eq!(dl.on_piece(0, 0, &vec![0u8; 100]).unwrap_err(), PeerError::UnexpectedPiece);
    // nothing was taken
    assert!(!dl.is_complete());
    assert_eq!(dl.take_data().len(), 0);
}

#[test]
fn test_peer_config() {
    let cfg = PeerConfig::new([1u8; 20], [2u8; 20]);
    assert_eq!(cfg.peer_id, [1u8; 20]);
    assert_eq!(cfg.info_hash, [2u8; 20]);
    assert_eq!(cfg.port, 6881);
}
