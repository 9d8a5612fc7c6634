use codecrafters_bittorrent::messages::{MessageSerialization, MessageTag, PeerHandshake, PeerMessage};
use codecrafters_bittorrent::peer_messages::MessageSerialization as CodecSerialization;
use codecrafters_bittorrent::types::TorrentError;

#[test]
fn message_tag_from_known_byte() {
    assert_eq!(MessageTag::from_u8(5), Ok(MessageTag::Bitfield));
    assert_eq!(MessageTag::from_u8(16), Ok(MessageTag::RejectRequest));
    assert_eq!(MessageTag::from_u8(20), Ok(MessageTag::Extension));
}

#[test]
fn message_tag_from_unknown_byte() {
    assert_eq!(MessageTag::from_u8(9), Err(TorrentError::UnknownTag(9)));
}

#[test]
fn interested_message_bytes() {
    let m = PeerMessage::new(MessageTag::Interested, Vec::<u8>::new());
    assert_eq!(m.serialize().unwrap(), vec![0, 0, 0, 1, 2]);
}

#[test]
fn handshake_is_68_bytes_and_reads_back() {
    let h = PeerHandshake::new(None, None, true);
    let bytes = h.serialize().unwrap();
    assert_eq!(bytes.len(), 68);
    assert_eq!(bytes[0], 19);
    assert_eq!(&bytes[1..20], b"BitTorrent protocol");
    assert_eq!(&bytes[20..28], &[0, 0, 0, 0, 0, 16, 0, 0]);
    assert_eq!(&bytes[48..68], b"-PC0001-123456701112");
    assert_eq!(PeerHandshake::deserialize(&bytes).unwrap(), h);
}

use codecrafters_bittorrent::messages::{
    ExtensionHandshakeMessage, ExtensionPayload, ExtensionPieceRequestMessage, PieceMessage, PieceRequestMessage,
};
use codecrafters_bittorrent::torrent::{PiecesHashes, TorrentInfo};

#[test]
fn handshake_with_given_hash_and_id() {
    let hash = codecrafters_bittorrent::types::HashId([7; 20]);
    let h = PeerHandshake::default(Some(hash), Some([9; 20]));
    assert_eq!(h.info_hash, hash);
    assert_eq!(h.peer_id, [9; 20]);
    assert_eq!(h.reserved, [0; 8]);
    let bytes = h.serialize().unwrap();
    assert_eq!(&bytes[28..48], &[7; 20]);
}

#[test]
fn short_handshake_is_an_error() {
    assert_eq!(PeerHandshake::deserialize(&[19; 10]).unwrap_err(), TorrentError::UnexpectedEnd);
    assert_eq!(
        codecrafters_bittorrent::peer_messages::PeerHandshake::deserialize(&[19; 10]).unwrap_err(),
        TorrentError::InvalidHandshakeSize(10)
    );
}

#[test]
fn message_reads_back_with_trailing_bytes() {
    let m = PeerMessage::new(MessageTag::Have, vec![0, 0, 0, 5]);
    let mut bytes = m.serialize().unwrap();
    assert_eq!(bytes, vec![0, 0, 0, 5, 4, 0, 0, 0, 5]);
    bytes.extend([1, 2, 3]);
    let back = PeerMessage::<Vec<u8>>::deserialize(&bytes).unwrap();
    assert_eq!(back, m);
}

#[test]
fn message_with_short_payload_is_an_error() {
    assert_eq!(PeerMessage::<Vec<u8>>::deserialize(&[0, 0, 0, 9, 4, 1]).unwrap_err(), TorrentError::UnexpectedEnd);
}

#[test]
fn message_with_unknown_tag_is_an_error() {
    assert_eq!(PeerMessage::<Vec<u8>>::deserialize(&[0, 0, 0, 1, 99]).unwrap_err(), TorrentError::UnknownTag(99));
}

#[test]
fn convert_reads_the_payload() {
    let raw = PeerMessage::new(MessageTag::Request, vec![0, 0, 0, 1, 0, 0, 0, 2, 0, 0, 0, 3]);
    let m = raw.convert::<PieceRequestMessage>().unwrap();
    assert_eq!(m.message_tag, MessageTag::Request);
    assert_eq!((m.message.index(), m.message.begin(), m.message.length()), (1, 2, 3));
    let short = PeerMessage::new(MessageTag::Request, vec![0, 0]);
    assert_eq!(short.convert::<PieceRequestMessage>().unwrap_err(), TorrentError::UnexpectedEnd);
}

#[test]
fn piece_request_is_twelve_big_endian_bytes() {
    let r = PieceRequestMessage::new(1, 16384, 16384);
    assert_eq!(r.serialize().unwrap(), vec![0, 0, 0, 1, 0, 0, 64, 0, 0, 0, 64, 0]);
    let back = PieceRequestMessage::deserialize(&r.serialize().unwrap()).unwrap();
    assert_eq!((back.index(), back.begin(), back.length()), (1, 16384, 16384));
}

#[test]
fn piece_message_reads_index_offset_and_block() {
    let p = PieceMessage::deserialize(&[0, 0, 0, 2, 0, 0, 0, 8, 9, 9, 9]).unwrap();
    assert_eq!(p.index(), 2);
    assert_eq!(p.begin(), 8);
    assert_eq!(p.block(), &[9, 9, 9]);
    assert_eq!(p.length(), 3);
}

#[test]
fn piece_message_writes_block_behind_its_length() {
    let p = PieceMessage::new(1, 2, vec![5, 6]);
    assert_eq!(p.serialize().unwrap(), vec![0, 0, 0, 1, 0, 0, 0, 2, 2, 0, 0, 0, 0, 0, 0, 0, 5, 6]);
}

#[test]
fn extension_payload_prefixes_the_id() {
    let e = ExtensionPayload::new(3, vec![1u8, 2]);
    assert_eq!(e.serialize().unwrap(), vec![3, 1, 2]);
    let m = e.clone().into_peer_message();
    assert_eq!(m.message_tag, MessageTag::Extension);
    assert_eq!(m.serialize().unwrap(), vec![0, 0, 0, 4, 20, 3, 1, 2]);
    assert_eq!(ExtensionPayload::<Vec<u8>>::deserialize(&[3, 1, 2]).unwrap(), e);
}

#[test]
fn extension_handshake_default_bytes() {
    let h = ExtensionHandshakeMessage::default();
    assert_eq!(h.serialize().unwrap(), b"d1:md11:ut_metadatai1eee".to_vec());
}

#[test]
fn extension_handshake_reads_fields() {
    let h = ExtensionHandshakeMessage::deserialize(
        b"d1:md11:ut_metadatai16e6:ut_pexi2ee13:metadata_sizei132e1:pi6881e4:reqqi250e1:v6:Tixati1:xi0ee",
    )
    .unwrap();
    assert_eq!(h.metadata.ut_metadata, 16);
    assert_eq!(h.metadata.ut_pex, Some(2));
    assert_eq!(h.metadata_size, Some(132));
    assert_eq!(h.local_listen_port, Some(6881));
    assert_eq!(h.max_outstanding_requests, Some(250));
    assert_eq!(h.version.as_deref(), Some("Tixati"));
    let again = ExtensionHandshakeMessage::deserialize(&h.serialize().unwrap()).unwrap();
    assert_eq!(again.metadata, h.metadata);
    assert_eq!(again.version, h.version);
}

#[test]
fn extension_handshake_errors() {
    assert_eq!(ExtensionHandshakeMessage::deserialize(b"de").unwrap_err(), TorrentError::MissingField);
    assert_eq!(ExtensionHandshakeMessage::deserialize(b"d1:mdee").unwrap_err(), TorrentError::MissingField);
    assert_eq!(ExtensionHandshakeMessage::deserialize(b"d1:pi70000ee").unwrap_err(), TorrentError::InvalidField);
    assert_eq!(ExtensionHandshakeMessage::deserialize(b"!").unwrap_err(), TorrentError::Bencode);
    assert_eq!(ExtensionHandshakeMessage::deserialize(b"li1ee").unwrap_err(), TorrentError::InvalidField);
}

fn sample_info() -> TorrentInfo {
    TorrentInfo {
        name: "f".to_string(),
        piece_length: 4,
        pieces: PiecesHashes::from_bytes(&[1; 20]).unwrap(),
        length: 3,
    }
}

#[test]
fn metadata_request_default_bytes() {
    let r = ExtensionPieceRequestMessage::default();
    assert_eq!(r.serialize().unwrap(), b"d8:msg_typei0e5:piecei0e10:total_sizei0ee".to_vec());
}

#[test]
fn metadata_message_carries_the_info_dictionary() {
    let mut b = b"d8:msg_typei1e5:piecei0e10:total_sizei".to_vec();
    let info = codecrafters_bittorrent::bencode::encode(&sample_info().to_bencode());
    b.extend(info.len().to_string().as_bytes());
    b.extend(b"ee");
    b.extend(&info);
    let m = ExtensionPieceRequestMessage::deserialize(&b).unwrap();
    assert_eq!(m.msg_type, 1);
    assert_eq!(m.total_size as usize, info.len());
    assert_eq!(m.torrent_info().name, "f");
    assert_eq!(m.torrent_info().length, 3);
    let again = ExtensionPieceRequestMessage::deserialize(&m.serialize().unwrap()).unwrap();
    assert_eq!(again.torrent_info().pieces.to_bytes(), vec![1; 20]);
}

#[test]
fn metadata_message_errors() {
    assert_eq!(ExtensionPieceRequestMessage::deserialize(b"d8:msg_typei1ee").unwrap_err(), TorrentError::MissingField);
    assert_eq!(
        ExtensionPieceRequestMessage::deserialize(b"d8:msg_typei300e5:piecei0e10:total_sizei0ee").unwrap_err(),
        TorrentError::InvalidField
    );
    assert_eq!(ExtensionPieceRequestMessage::deserialize(b"li1ei2ee").unwrap_err(), TorrentError::InvalidLength);
    assert_eq!(ExtensionPieceRequestMessage::deserialize(b"li1ei2ei0ei4ee").unwrap_err(), TorrentError::InvalidLength);
    assert_eq!(ExtensionPieceRequestMessage::deserialize(&[b'1', b':', 0xff]).unwrap_err(), TorrentError::InvalidUtf8);
    assert_eq!(
        ExtensionPieceRequestMessage::deserialize(b"d8:msg_typei1e5:piecei0e10:total_sizei2eexx").unwrap_err(),
        TorrentError::Bencode
    );
}

#[test]
fn metadata_message_from_a_list() {
    let m = ExtensionPieceRequestMessage::deserialize(b"li2ei7ei0ee").unwrap();
    assert_eq!((m.msg_type, m.piece, m.total_size), (2, 7, 0));
}

#[test]
fn extension_handshake_addresses_start_empty_and_are_not_written() {
    let mut h = ExtensionHandshakeMessage::default();
    assert!(h.your_ip.is_none() && h.ipv6.is_none() && h.ipv4.is_none());
    h.ipv4 = Some([10, 0, 0, 1]);
    h.your_ip = Some(vec![1, 2, 3, 4]);
    assert_eq!(h.serialize().unwrap(), b"d1:md11:ut_metadatai1eee".to_vec());
    let back = ExtensionHandshakeMessage::deserialize(&h.serialize().unwrap()).unwrap();
    assert!(back.your_ip.is_none() && back.ipv4.is_none());
}
