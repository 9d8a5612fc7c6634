use codecrafters_bittorrent::types::{HashId, TorrentError};
use codecrafters_bittorrent::torrent::PiecesHashes;

#[test]
fn default_hash_is_zero() {
    assert_eq!(HashId::default(), HashId([0; 20]));
}

#[test]
fn hash_from_hex_text() {
    let h = HashId::from_hex("D69F91E6B2AE4C542468D1073A71D4EA13879A7F").unwrap();
    assert_eq!(h.0[0], 0xd6);
    assert_eq!(h.0[19], 0x7f);
    let text = PiecesHashes::from_bytes(&h.0).unwrap().encoded_hashes().remove(0);
    assert_eq!(text, "d69f91e6b2ae4c542468d1073a71d4ea13879a7f");
    assert_eq!(HashId::from_hex(&text).unwrap(), h);
}

#[test]
fn hash_from_bad_hex() {
    assert_eq!(HashId::from_hex("abc").unwrap_err(), TorrentError::InvalidHex);
    assert_eq!(HashId::from_hex("zz").unwrap_err(), TorrentError::InvalidHex);
    assert_eq!(HashId::from_hex("abcd").unwrap_err(), TorrentError::InvalidHashLength(2));
}

#[test]
fn url_encoding_of_a_hash() {
    let mut bytes = [0u8; 20];
    bytes[0] = 0xd6;
    bytes[1] = 0x0a;
    let enc = HashId(bytes).url_encode();
    assert_eq!(enc.len(), 60);
    assert!(enc.starts_with("%d6%0a%00"));
}
