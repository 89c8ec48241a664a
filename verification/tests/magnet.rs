use bittorrent_core::torrent::magnet_link::MagnetError;
use bittorrent_core::torrent::magnet_link::MagnetLink;
use bittorrent_core::torrent::magnet_link::url_decode;

#[test]
fn test_magnet_parse_full_link() {
    let uri = "magnet:?xt=urn:btih:0123456789abcdef0123456789abcdef01234567&dn=name&tr=http%3A%2F%2Ftracker%2Fannounce";
    let m = MagnetLink::parse(uri).unwrap();
    let expected: [u8; 20] = [
        0x01, 0x23, 0x45, 0x67, 0x89, 0xab, 0xcd, 0xef, 0x01, 0x23, 0x45, 0x67, 0x89, 0xab, 0xcd,
        0xef, 0x01, 0x23, 0x45, 0x67,
    ];
    assert_eq!(m.info_hash, expected);
    assert_eq!(m.name.as_deref(), Some("name"));
    assert_eq!(m.tracker.as_deref(), Some("http://tracker/announce"));
}

#[test]
fn test_magnet_parse_hash_only() {
    let uri = "magnet:?xt=urn:btih:ffffffffffffffffffffffffffffffffffffffff";
    let m = MagnetLink::parse(uri).unwrap();
    assert_eq!(m.info_hash, [0xff; 20]);
    assert_eq!(m.name, None);
    assert_eq!(m.tracker, None);
}

#[test]
fn test_magnet_parse_upper_case_hex() {
    let uri = "magnet:?xt=urn:btih:ABCDEFABCDEFABCDEFABCDEFABCDEFABCDEFABCD";
    let m = MagnetLink::parse(uri).unwrap();
    assert_eq!(m.info_hash[0], 0xab);
    assert_eq!(m.info_hash[19], 0xcd);
}

#[test]
fn test_magnet_parse_errors() {
    assert_eq!(
        MagnetLink::parse("http://example/").unwrap_err(),
        MagnetError::NotMagnet
    );
    assert_eq!(
        MagnetLink::parse("magnet:?dn=name").unwrap_err(),
        MagnetError::MissingInfoHash
    );
    assert_eq!(
        MagnetLink::parse("magnet:?xt=urn:btih:zz").unwrap_err(),
        MagnetError::BadInfoHash
    );
    assert_eq!(
        MagnetLink::parse(
            "magnet:?xt=urn:btih:zzzzzzzzzzzzzzzzzzzzzzzzzzzzzzzzzzzzzzzz"
        )
        .unwrap_err(),
        MagnetError::BadInfoHash
    );
    assert_eq!(
        MagnetLink::parse(
            "magnet:?xt=urn:btih:0123456789abcdef0123456789abcdef01234567&dn=%zz"
        )
        .unwrap_err(),
        MagnetError::BadPercentEncoding
    );
}

#[test]
fn test_magnet_unknown_keys_are_ignored() {
    let uri = "magnet:?ws=http%3A%2F%2Fseed&xt=urn:btih:0123456789abcdef0123456789abcdef01234567&x.pe=1.2.3.4";
    let m = MagnetLink::parse(uri).unwrap();
    assert_eq!(m.info_hash[0], 0x01);
    assert_eq!(m.name, None);
    assert_eq!(m.tracker, None);
}

#[test]
fn test_url_decode() {
    assert_eq!(url_decode("abc").unwrap(), "abc");
    assert_eq!(url_decode("a%20b").unwrap(), "a b");
    assert_eq!(url_decode("%41%42").unwrap(), "AB");
    assert_eq!(url_decode("%3a%2F").unwrap(), ":/");
    assert_eq!(url_decode("%4").unwrap_err(), MagnetError::BadPercentEncoding);
    assert_eq!(url_decode("%gg").unwrap_err(), MagnetError::BadPercentEncoding);
}
