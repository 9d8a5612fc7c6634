use codecrafters_bittorrent::magnet::Magnet;
use codecrafters_bittorrent::tracker::{TackerRequest, Tracker};
use codecrafters_bittorrent::types::{HashId, TorrentError};
use codecrafters_bittorrent::PEER_ID;

#[test]
fn tracker_request_parameters() {
    let r = TackerRequest::new(PEER_ID, 92063).unwrap();
    assert_eq!(r.peer_id, "-PC0001-123456701112");
    assert_eq!((r.port, r.uploaded, r.downloaded, r.left, r.compact), (6881, 0, 0, 92063, 1));
    assert_eq!(r.query(), "peer_id=-PC0001-123456701112&port=6881&uploaded=0&downloaded=0&left=92063&compact=1");
}

#[test]
fn tracker_request_encodes_special_bytes() {
    let mut r = TackerRequest::new(PEER_ID, 1).unwrap();
    r.peer_id = "a b&c/é".to_string();
    assert!(r.query().starts_with("peer_id=a+b%26c%2F%C3%A9&port="));
}

#[test]
fn tracker_request_with_non_utf8_peer_id() {
    let mut id = [b'a'; 20];
    id[0] = 0xff;
    assert_eq!(TackerRequest::new(&id, 1).unwrap_err(), TorrentError::InvalidUtf8);
}

#[test]
fn announce_url() {
    let r = TackerRequest::new(PEER_ID, 10).unwrap();
    let url = Tracker::announce_url("http://t.example/announce", &r, &HashId([0xab; 20]));
    assert!(url.starts_with("http://t.example/announce?peer_id=-PC0001-123456701112&port=6881"));
    assert!(url.ends_with(&format!("&info_hash={}", "%ab".repeat(20))));
}

#[test]
fn tracker_response_peers() {
    let mut b = b"d8:intervali60e5:peers12:".to_vec();
    b.extend([1, 2, 3, 4, 0x1a, 0xe1, 5, 6, 7, 8, 0, 1]);
    b.push(b'e');
    let t = Tracker::from_response(&b).unwrap();
    assert_eq!(t._interval, 60);
    assert_eq!(t.peers.len(), 2);
    assert_eq!(t.peers.get(0).ip_address(), "1.2.3.4:6881");
    assert_eq!(t.peers.get(1).ip_address(), "5.6.7.8:1");
}

#[test]
fn tracker_response_errors() {
    assert_eq!(Tracker::from_response(b"d8:intervali60e5:peers5:abcdee").unwrap_err(), TorrentError::InvalidPeersLength(5));
    assert_eq!(Tracker::from_response(b"d8:intervali60ee").unwrap_err(), TorrentError::MissingField);
    assert_eq!(Tracker::from_response(b"d8:interval1:xe").unwrap_err(), TorrentError::InvalidField);
    assert_eq!(Tracker::from_response(b"<html>").unwrap_err(), TorrentError::Bencode);
}

const LINK: &str = "magnet:?xt=urn:btih:ad42ce8109f54c99613ce38f9b4d87e70f24a165&dn=magnet1.gif&tr=http%3A%2F%2Fbittorrent-test-tracker.codecrafters.io%2Fannounce";

#[test]
fn magnet_link_fields() {
    let m = Magnet::from_str(LINK).unwrap();
    assert_eq!(m.announce(), "http://bittorrent-test-tracker.codecrafters.io/announce");
    assert_eq!(m.name.as_deref(), Some("magnet1.gif"));
    assert_eq!(m.info_hash, HashId::from_hex("ad42ce8109f54c99613ce38f9b4d87e70f24a165").unwrap());
    assert!(!m.has_tracker());
    let h = m.handshake_request();
    assert_eq!(h.info_hash, m.info_hash);
    assert_eq!(h.reserved, [0, 0, 0, 0, 0, 16, 0, 0]);
}

#[test]
fn magnet_link_errors() {
    assert_eq!(Magnet::from_str("not a url").unwrap_err(), TorrentError::InvalidUrl);
    assert_eq!(Magnet::from_str("magnet:?xt=urn:sha1:abc").unwrap_err(), TorrentError::InvalidInfoHash);
    assert_eq!(Magnet::from_str("magnet:?xt=urn:btih:zz").unwrap_err(), TorrentError::InvalidHex);
    assert_eq!(Magnet::from_str("magnet:?xt=urn:btih:abcd").unwrap_err(), TorrentError::InvalidHashLength(2));
}

#[test]
fn magnet_parse_without_hash() {
    assert!(Magnet::parse("magnet:?dn=x").is_none());
    assert!(Magnet::parse(LINK).unwrap().is_ok());
}

#[test]
fn magnet_keeps_the_first_tracker_answer() {
    let mut m = Magnet::from_str(LINK).unwrap();
    let first = Tracker::from_response(b"d8:intervali1e5:peers0:e").unwrap();
    let second = Tracker::from_response(b"d8:intervali2e5:peers0:e").unwrap();
    m.set_tracker(first);
    m.set_tracker(second);
    assert_eq!(m.tracker()._interval, 1);
}
