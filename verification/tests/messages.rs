use bittorrent_core::torrent::message::Message;
use bittorrent_core::torrent::message::MessageError;

#[test]
fn test_message_serialization() {
    let messages = vec![
        (Message::KeepAlive, vec![0, 0, 0, 0]),
        (Message::Choke, vec![0, 0, 0, 1, 0]),
        (Message::Unchoke, vec![0, 0, 0, 1, 1]),
        (Message::Interested, vec![0, 0, 0, 1, 2]),
        (Message::NotInterested, vec![0, 0, 0, 1, 3]),
        (Message::Have(42), vec![0, 0, 0, 5, 4, 0, 0, 0, 42]),
        (Message::Bitfield(vec![1, 2, 3]), vec![0, 0, 0, 4, 5, 1, 2, 3]),
        (
            Message::Request { index: 1, begin: 2, length: 16384 },
            vec![0, 0, 0, 13, 6, 0, 0, 0, 1, 0, 0, 0, 2, 0, 0, 64, 0],
        ),
    ];

    for (message, expected_bytes) in messages {
        assert_eq!(message.to_bytes(), expected_bytes);
        if !expected_bytes.is_empty() {
            assert_eq!(Message::from_bytes(&expected_bytes[4..]).unwrap(), message);
        }
    }
}

#[test]
fn test_piece_and_cancel_round_trip() {
    let piece = Message::Piece { index: 7, begin: 16384, block: vec![9, 8, 7] };
    let bytes = piece.to_bytes();
    assert_eq!(&bytes[..4], &[0, 0, 0, 12]);
    assert_eq!(bytes[4], 7);
    assert_eq!(Message::from_bytes(&bytes[4..]).unwrap(), piece);

    let cancel = Message::Cancel { index: 1, begin: 2, length: 3 };
    let bytes = cancel.to_bytes();
    assert_eq!(&bytes[..5], &[0, 0, 0, 13, 8]);
    assert_eq!(Message::from_bytes(&bytes[4..]).unwrap(), cancel);
}

#[test]
fn test_message_decode_errors() {
    // a fixed-length message with the wrong payload length
    assert_eq!(Message::from_bytes(&[4, 0, 0, 0]).unwrap_err(), MessageError::BadMessageLength);
    assert_eq!(Message::from_bytes(&[0, 9]).unwrap_err(), MessageError::BadMessageLength);
    assert_eq!(
        Message::from_bytes(&[7, 0, 0, 0, 0]).unwrap_err(),
        MessageError::BadMessageLength
    );
    // an id that opens no message kind
    assert_eq!(Message::from_bytes(&[9]).unwrap_err(), MessageError::UnknownMessageId(9));
    // an empty payload is a keep-alive
    assert_eq!(Message::from_bytes(&[]).unwrap(), Message::KeepAlive);
}
