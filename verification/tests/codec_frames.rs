use codecrafters_bittorrent::json::JsonValue;
use codecrafters_bittorrent::peer_messages::{
    CodecState, ExtensionHandshakeMessage, ExtensionPieceRequestMessage, MessageSerialization, MessageTag,
    PeerCodec, PeerFrame, PeerHandshake, PeerMessage, PieceRequestMessage, MAX_MESSAGE_LENGTH,
};
use codecrafters_bittorrent::types::TorrentError;

#[test]
fn unknown_tag_reads_as_unknown() {
    assert_eq!(MessageTag::from_u8(16), Ok(MessageTag::UNKNOWN));
    assert_eq!(MessageTag::from_u8(8), Ok(MessageTag::Cancel));
    assert_eq!(MessageTag::UNKNOWN.to_u8(), 255);
}

#[test]
fn codec_reads_handshake_then_messages() {
    let mut codec = PeerCodec::new();
    let h = PeerHandshake::new(None, None, false);
    let mut bytes = h.serialize().unwrap();
    bytes.extend([0, 0, 0, 1, 1]);
    let (used, frame) = codec.decode(&bytes[..10]).unwrap();
    assert_eq!(used, 0);
    assert!(frame.is_none());
    let (used, frame) = codec.decode(&bytes).unwrap();
    assert_eq!(used, 68);
    assert_eq!(codec.state, CodecState::Messages);
    assert_eq!(frame.unwrap().expect_handshake().unwrap(), h);
    let (used, frame) = codec.decode(&bytes[68..]).unwrap();
    assert_eq!(used, 5);
    let m = frame.unwrap().unwrap_message();
    assert_eq!(m.message_tag, MessageTag::Unchoke);
    assert!(m.message.is_empty());
}

#[test]
fn codec_uses_up_keep_alives() {
    let mut codec = PeerCodec::new();
    codec.state = CodecState::Messages;
    let (used, frame) = codec.decode(&[0, 0, 0, 0, 0, 0]).unwrap();
    assert_eq!(used, 4);
    assert!(frame.is_none());
}

#[test]
fn codec_waits_for_the_whole_message() {
    let mut codec = PeerCodec::new();
    codec.state = CodecState::Messages;
    let (used, frame) = codec.decode(&[0, 0, 0, 3, 4, 1]).unwrap();
    assert_eq!(used, 0);
    assert!(frame.is_none());
}

#[test]
fn codec_refuses_long_messages() {
    let mut codec = PeerCodec::new();
    codec.state = CodecState::Messages;
    let len = (MAX_MESSAGE_LENGTH + 1) as u32;
    let mut bytes = len.to_be_bytes().to_vec();
    bytes.push(7);
    assert_eq!(codec.decode(&bytes).unwrap_err(), TorrentError::MessageTooLong(MAX_MESSAGE_LENGTH + 1));
}

#[test]
fn codec_encodes_messages() {
    let mut codec = PeerCodec::new();
    let mut out = Vec::new();
    codec.encode(PeerMessage::new(MessageTag::Interested, Vec::<u8>::new()), &mut out).unwrap();
    codec.encode(PeerMessage::new(MessageTag::Have, vec![0u8, 0, 0, 1]), &mut out).unwrap();
    assert_eq!(out, vec![0, 0, 0, 1, 2, 0, 0, 0, 5, 4, 0, 0, 0, 1]);
}

#[test]
fn expect_message_on_a_handshake_frame() {
    let frame = PeerFrame::Handshake(PeerHandshake::new(None, None, false));
    assert_eq!(frame.expect_message::<Vec<u8>>().unwrap_err(), TorrentError::UnexpectedFrame);
    let frame = PeerFrame::Message(PeerMessage::new(MessageTag::Choke, vec![]));
    assert_eq!(frame.expect_handshake().unwrap_err(), TorrentError::UnexpectedFrame);
}

#[test]
fn expect_message_reads_the_payload() {
    let frame = PeerFrame::Message(PeerMessage::new(MessageTag::Request, vec![0, 0, 0, 4, 0, 0, 0, 0, 0, 0, 64, 0]));
    let m = frame.expect_message::<PieceRequestMessage>().unwrap();
    assert_eq!(m.message_tag, MessageTag::Request);
}

#[test]
fn expect_extension_message_reads_the_handshake() {
    let mut payload = vec![0u8];
    payload.extend(b"d1:md11:ut_metadatai3ee1:v3:abce");
    let frame = PeerFrame::Message(PeerMessage::new(MessageTag::Extension, payload));
    let m = frame.expect_extension_message::<ExtensionHandshakeMessage>().unwrap();
    assert_eq!(m.message.metadata_id, 0);
    assert_eq!(m.message.payload.metadata.ut_metadata, 3);
    match &m.message.payload._data {
        JsonValue::Object(rest) => {
            assert_eq!(rest.len(), 1);
            assert_eq!(rest[0].0, "v");
        }
        _ => panic!("the other fields are an object"),
    }
}

#[test]
fn json_extension_handshake_writes_ids_and_size() {
    let mut h = ExtensionHandshakeMessage::default();
    h.metadata_size = Some(5);
    assert_eq!(h.serialize().unwrap(), b"d1:md11:ut_metadatai1ee13:metadata_sizei5ee".to_vec());
    let back = ExtensionHandshakeMessage::deserialize(&h.serialize().unwrap()).unwrap();
    assert_eq!(back.metadata, h.metadata);
    assert_eq!(back.metadata_size, Some(5));
}

#[test]
fn json_extension_handshake_errors() {
    assert_eq!(ExtensionHandshakeMessage::deserialize(b"li1ee").unwrap_err(), TorrentError::InvalidField);
    assert_eq!(ExtensionHandshakeMessage::deserialize(b"d1:xi1ee").unwrap_err(), TorrentError::MissingField);
    assert_eq!(
        ExtensionHandshakeMessage::deserialize(b"d1:mli1ei2ei3eee").unwrap_err(),
        TorrentError::InvalidLength
    );
}

#[test]
fn json_metadata_message_roundtrip() {
    let m = ExtensionPieceRequestMessage::default();
    let back = ExtensionPieceRequestMessage::deserialize(&m.serialize().unwrap()).unwrap();
    assert_eq!((back.msg_type, back.piece, back.total_size), (0, 0, 0));
    assert!(back.torrent_info.is_none());
}

#[test]
fn message_reads_every_byte_after_the_tag() {
    let m = PeerMessage::<Vec<u8>>::deserialize(&[0, 0, 0, 2, 4, 7, 8, 9]).unwrap();
    assert_eq!(m.message_tag, MessageTag::Have);
    assert_eq!(m.message, vec![7, 8, 9]);
}

#[test]
fn codec_message_roundtrip_with_trailing_bytes() {
    let mut codec = PeerCodec::new();
    codec.state = CodecState::Messages;
    let mut bytes = PeerMessage::new(MessageTag::Piece, vec![1u8, 2, 3]).serialize().unwrap();
    bytes.extend([0, 0, 0, 1, 2]);
    let (used, frame) = codec.decode(&bytes).unwrap();
    assert_eq!(used, 8);
    let m = frame.unwrap().unwrap_message();
    assert_eq!(m.message_tag, MessageTag::Piece);
    assert_eq!(m.message, vec![1, 2, 3]);
}
