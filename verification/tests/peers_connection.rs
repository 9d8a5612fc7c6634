use codecrafters_bittorrent::messages::{
    ExtensionHandshakeMessage, ExtensionPayload, ExtensionPieceRequestMessage, MessageSerialization, MessageTag,
    PeerHandshake, PeerMessage, PieceRequestMessage,
};
use codecrafters_bittorrent::peer::{Peer, PeerCodec, PeerConnection, PeerFrame, Peers};
use codecrafters_bittorrent::types::{HashId, TorrentError};

#[test]
fn peer_from_address_text() {
    let p = Peer::new("165.232.35.114:51443");
    assert_eq!(p.ip, [165, 232, 35, 114]);
    assert_eq!(p.port, 51443);
    assert_eq!(p.ip_address(), "165.232.35.114:51443");
}

#[test]
fn peer_address_text_reads_back() {
    let p = Peer { ip: [10, 0, 255, 7], port: 80 };
    assert_eq!(Peer::new(&p.ip_address()), p);
}

#[test]
fn compact_peer_list() {
    let peers = Peers::from_compact(&[192, 168, 1, 2, 0x1a, 0xe1, 1, 2, 3, 4, 0, 80]).unwrap();
    assert_eq!(peers.len(), 2);
    assert_eq!(peers.get(0).ip_address(), "192.168.1.2:6881");
    assert_eq!(peers.as_slice()[1].port, 80);
}

#[test]
fn compact_peer_list_of_wrong_length() {
    assert_eq!(Peers::from_compact(&[1, 2, 3, 4, 5]).unwrap_err(), TorrentError::InvalidPeersLength(5));
}

fn reply(peer_id: [u8; 20]) -> PeerHandshake {
    PeerHandshake::default(Some(HashId([1; 20])), Some(peer_id))
}

#[test]
fn handshake_exchange_sets_the_peer_id() {
    let mut c = PeerConnection::new(&Peer { ip: [1, 2, 3, 4], port: 1 });
    assert!(c.requires_handshake());
    assert!(c.requires_extension_exchange());
    let h = c.receive_handshake(PeerFrame::Handshake(reply([2; 20]))).unwrap();
    let bitfield = PeerFrame::Message(PeerMessage::new(MessageTag::Bitfield, vec![0xff]));
    c.receive_bitfield(&h, bitfield).unwrap();
    assert!(!c.requires_handshake());
    assert_eq!(c.peer_id(), [2; 20]);
}

#[test]
fn handshake_checks() {
    let c = PeerConnection::new(&Peer { ip: [1, 2, 3, 4], port: 1 });
    let own = reply(*b"-PC0001-123456701112");
    assert_eq!(c.receive_handshake(PeerFrame::Handshake(own)).unwrap_err(), TorrentError::OwnPeerId);
    let mut bad = reply([2; 20]);
    bad.protocol_length = 18;
    assert_eq!(PeerConnection::check_handshake(&bad).unwrap_err(), TorrentError::InvalidProtocolLength);
    let mut bad = reply([2; 20]);
    bad.protocol[0] = b'b';
    assert_eq!(PeerConnection::check_handshake(&bad).unwrap_err(), TorrentError::InvalidProtocol);
    let msg = PeerFrame::Message(PeerMessage::new(MessageTag::Choke, vec![]));
    assert_eq!(c.receive_handshake(msg).unwrap_err(), TorrentError::UnexpectedFrame);
}

#[test]
fn bitfield_must_follow_the_handshake() {
    let mut c = PeerConnection::new(&Peer { ip: [1, 2, 3, 4], port: 1 });
    let h = reply([2; 20]);
    let frame = PeerFrame::Message(PeerMessage::new(MessageTag::Have, vec![0, 0, 0, 0]));
    assert_eq!(c.receive_bitfield(&h, frame).unwrap_err(), TorrentError::UnexpectedTag);
    assert!(c.requires_handshake());
}

#[test]
fn unchoke_checks() {
    let ok = PeerFrame::Message(PeerMessage::new(MessageTag::Unchoke, vec![]));
    assert_eq!(PeerConnection::receive_unchoke(ok).unwrap().message_tag, MessageTag::Unchoke);
    let choke = PeerFrame::Message(PeerMessage::new(MessageTag::Choke, vec![]));
    assert_eq!(PeerConnection::receive_unchoke(choke).unwrap_err(), TorrentError::UnexpectedTag);
    let payload = PeerFrame::Message(PeerMessage::new(MessageTag::Unchoke, vec![1]));
    assert_eq!(PeerConnection::receive_unchoke(payload).unwrap_err(), TorrentError::UnexpectedPayload);
}

#[test]
fn piece_reply_checks() {
    let request = PieceRequestMessage::new(0, 16384, 2);
    let good = PeerFrame::Message(PeerMessage::new(MessageTag::Piece, vec![0, 0, 0, 0, 0, 0, 64, 0, 7, 8]));
    let piece = PeerConnection::receive_piece(&request, good).unwrap();
    assert_eq!(piece.message.block(), &[7, 8]);
    let other = PeerFrame::Message(PeerMessage::new(MessageTag::Piece, vec![0, 0, 0, 1, 0, 0, 64, 0, 7, 8]));
    assert_eq!(PeerConnection::receive_piece(&request, other).unwrap_err(), TorrentError::PieceMismatch);
    let tag = PeerFrame::Message(PeerMessage::new(MessageTag::Have, vec![0, 0, 0, 0, 0, 0, 64, 0, 7, 8]));
    assert_eq!(PeerConnection::receive_piece(&request, tag).unwrap_err(), TorrentError::UnexpectedTag);
}

#[test]
fn extension_handshake_sets_the_metadata_id() {
    let mut c = PeerConnection::new(&Peer { ip: [1, 2, 3, 4], port: 1 });
    let mut payload = vec![0u8];
    payload.extend(b"d1:md11:ut_metadatai7eee");
    let frame = PeerFrame::Message(PeerMessage::new(MessageTag::Extension, payload));
    let m = c.receive_extension_handshake(frame).unwrap();
    assert_eq!(m.message.payload.metadata.ut_metadata, 7);
    assert_eq!(c.metadata_id(), 7);
    let request = c.metadata_request();
    assert_eq!(request.message.metadata_id, 7);
    assert_eq!(request.serialize().unwrap()[5], 7);
}

#[test]
fn metadata_reply_must_be_an_extension_message() {
    let mut payload = vec![3u8];
    payload.extend(ExtensionPieceRequestMessage::default().serialize().unwrap());
    let frame = PeerFrame::Message(PeerMessage::new(MessageTag::Extension, payload.clone()));
    let m = PeerConnection::receive_metadata(frame).unwrap();
    assert_eq!(m.message.metadata_id, 3);
    let frame = PeerFrame::Message(PeerMessage::new(MessageTag::Piece, payload));
    assert_eq!(PeerConnection::receive_metadata(frame).unwrap_err(), TorrentError::UnexpectedTag);
}

#[test]
fn extension_request_from_this_client() {
    let m = ExtensionPayload::new(0, ExtensionHandshakeMessage::default()).into_peer_message();
    let bytes = m.serialize().unwrap();
    assert_eq!(&bytes[4..6], &[20, 0]);
    assert_eq!(&bytes[6..], b"d1:md11:ut_metadatai1eee");
}

#[test]
fn peer_codec_reads_frames() {
    let mut codec = PeerCodec::new();
    let h = PeerHandshake::new(None, None, true);
    let bytes = h.serialize().unwrap();
    let (used, frame) = codec.decode(&bytes).unwrap();
    assert_eq!(used, 68);
    assert_eq!(frame.unwrap().expect_handshake().unwrap(), h);
    assert_eq!(codec.decode(&[0, 0, 0, 1, 9]).unwrap_err(), TorrentError::UnknownTag(9));
    let (used, frame) = codec.decode(&[0, 0, 0, 1, 1, 0]).unwrap();
    assert_eq!(used, 5);
    assert_eq!(frame.unwrap().unwrap_message().message_tag, MessageTag::Unchoke);
}

#[test]
fn peer_parse_refuses_bad_addresses() {
    assert!(Peer::parse("1.2.3:80").is_none());
    assert!(Peer::parse("1.2.3.256:80").is_none());
    assert!(Peer::parse("01.2.3.4:80").is_none());
    assert!(Peer::parse("1.2.3.4").is_none());
    assert!(Peer::parse("1.2.3.4:70000").is_none());
    assert_eq!(Peer::parse("1.2.3.4:+80:x"), Some(Peer { ip: [1, 2, 3, 4], port: 80 }));
}

#[test]
fn metadata_reply_that_cannot_be_read() {
    assert!(!PeerConnection::metadata_payload_readable(&[]));
    assert!(!PeerConnection::metadata_payload_readable(&[1, b'x']));
    assert!(!PeerConnection::metadata_payload_readable(b"\x01d8:msg_typei1e5:piecei0e10:total_sizei99ee"));
    assert!(PeerConnection::metadata_payload_readable(b"\x01d8:msg_typei1e5:piecei0e10:total_sizei0ee"));
    let frame = PeerFrame::Message(PeerMessage::new(MessageTag::Extension, vec![1, b'x']));
    assert!(PeerConnection::try_receive_metadata(frame).is_none());
    let frame = PeerFrame::Handshake(reply([2; 20]));
    assert_eq!(PeerConnection::try_receive_metadata(frame).unwrap().unwrap_err(), TorrentError::UnexpectedFrame);
}
