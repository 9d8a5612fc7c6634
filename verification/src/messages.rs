//! Peer wire messages: tags, the handshake, length-prefixed frames and
//! their payloads.

use vstd::prelude::*;
use crate::types::{TorrentError, HashId, PeerId};
use crate::wire::{array_of, lemma_array_of, append_bytes, be_bytes, be_value, lemma_be_roundtrip, take_array, u32_from_be, u32_to_be};
use crate::bencode::{
    all_keys_utf8, dict_get, entries_view, field_invalid, keys_utf8, lemma_entries_view_push, opt_field,
    opt_insert, opt_int, read_text, read_u16, read_u32, read_u8, text_field, u16_field, u32_field, u8_field, BView,
    BencodeValue,
};
use crate::text::lemma_ascii_valid_utf8;
use crate::json::{json_get, json_u32, json_u8, ju32, ju8, spec_convert, JView, JsonValue};
use crate::torrent::{info_bview, lemma_info_roundtrip, spec_info_of, TorrentInfo, TorrentInfoView};
use vstd::utf8::{encode_utf8, valid_utf8};

verus! {

// ----------------- TRAIT -----------------

/// A value with a byte encoding on the peer wire.
///
/// `spec_serialize` is what `serialize` produces (`None` where it fails) and
/// `spec_deserialize` is what `deserialize` gives back for some bytes.
pub trait MessageSerialization: Sized + View {
    /// The inputs on which `serialize` runs to completion.
    spec fn serialize_requires(&self) -> bool;

    /// The bytes of this value, or `None` where serializing fails.
    spec fn spec_serialize(&self) -> Option<Seq<u8>>;

    /// The inputs on which `deserialize` runs to completion.
    spec fn deserialize_requires(data: Seq<u8>) -> bool;

    /// The value that some bytes stand for, or the error that reading them gives.
    spec fn spec_deserialize(data: Seq<u8>) -> Result<Self::V, TorrentError>;

    fn serialize(&self) -> (res: Result<Vec<u8>, TorrentError>)
        requires
            self.serialize_requires(),
        ensures
            match res {
                Ok(bytes) => self.spec_serialize() == Some(bytes@),
                Err(_) => self.spec_serialize() is None,
            },
    ;

    fn deserialize(data: &[u8]) -> (res: Result<Self, TorrentError>)
        requires
            Self::deserialize_requires(data@),
        ensures
            match res {
                Ok(v) => Self::spec_deserialize(data@) == Ok::<Self::V, TorrentError>(v@),
                Err(e) => Self::spec_deserialize(data@) == Err::<Self::V, TorrentError>(e),
            },
    ;
}

// ----------------- MESSAGE TAGS -----------------

/// The kind of a peer message, carried in the byte after the length prefix.
#[derive(Debug, Clone, Copy, PartialEq, Eq, Structural)]
pub enum MessageTag {
    Choke,
    Unchoke,
    Interested,
    NotInterested,
    Have,
    Bitfield,
    Request,
    Piece,
    Cancel,
    RejectRequest,
    Extension,
}

/// The byte that stands for a tag on the wire.
pub open spec fn tag_byte(tag: MessageTag) -> u8 {
    match tag {
        MessageTag::Choke => 0,
        MessageTag::Unchoke => 1,
        MessageTag::Interested => 2,
        MessageTag::NotInterested => 3,
        MessageTag::Have => 4,
        MessageTag::Bitfield => 5,
        MessageTag::Request => 6,
        MessageTag::Piece => 7,
        MessageTag::Cancel => 8,
        MessageTag::RejectRequest => 16,
        MessageTag::Extension => 20,
    }
}

/// The tag that a byte stands for, if any.
pub open spec fn tag_of_byte(b: u8) -> Option<MessageTag> {
    if b == 0 { Some(MessageTag::Choke) }
    else if b == 1 { Some(MessageTag::Unchoke) }
    else if b == 2 { Some(MessageTag::Interested) }
    else if b == 3 { Some(MessageTag::NotInterested) }
    else if b == 4 { Some(MessageTag::Have) }
    else if b == 5 { Some(MessageTag::Bitfield) }
    else if b == 6 { Some(MessageTag::Request) }
    else if b == 7 { Some(MessageTag::Piece) }
    else if b == 8 { Some(MessageTag::Cancel) }
    else if b == 16 { Some(MessageTag::RejectRequest) }
    else if b == 20 { Some(MessageTag::Extension) }
    else { None }
}

/// What `MessageTag::from_u8` gives for a byte.
pub open spec fn spec_tag_from_u8(b: u8) -> Result<MessageTag, TorrentError> {
    match tag_of_byte(b) {
        Some(t) => Ok(t),
        None => Err(TorrentError::UnknownTag(b)),
    }
}

impl MessageTag {
    /// The tag that a byte stands for; an unknown byte is an error.
    pub fn from_u8(tag: u8) -> (res: Result<Self, TorrentError>)
        ensures
            res == spec_tag_from_u8(tag),
    {
        match tag {
            0 => Ok(MessageTag::Choke),
            1 => Ok(MessageTag::Unchoke),
            2 => Ok(MessageTag::Interested),
            3 => Ok(MessageTag::NotInterested),
            4 => Ok(MessageTag::Have),
            5 => Ok(MessageTag::Bitfield),
            6 => Ok(MessageTag::Request),
            7 => Ok(MessageTag::Piece),
            8 => Ok(MessageTag::Cancel),
            16 => Ok(MessageTag::RejectRequest),
            20 => Ok(MessageTag::Extension),
            _ => Err(TorrentError::UnknownTag(tag)),
        }
    }

    /// The byte that stands for this tag on the wire.
    pub fn to_u8(&self) -> (res: u8)
        ensures
            res == tag_byte(*self),
    {
        match self {
            MessageTag::Choke => 0,
            MessageTag::Unchoke => 1,
            MessageTag::Interested => 2,
            MessageTag::NotInterested => 3,
            MessageTag::Have => 4,
            MessageTag::Bitfield => 5,
            MessageTag::Request => 6,
            MessageTag::Piece => 7,
            MessageTag::Cancel => 8,
            MessageTag::RejectRequest => 16,
            MessageTag::Extension => 20,
        }
    }
}

/// Each tag's byte is its BitTorrent message id, and each id reads as its
/// tag; any other byte is no known tag.
pub proof fn lemma_tag_ids()
    ensures
        tag_byte(MessageTag::Choke) == 0,
        tag_byte(MessageTag::Unchoke) == 1,
        tag_byte(MessageTag::Interested) == 2,
        tag_byte(MessageTag::NotInterested) == 3,
        tag_byte(MessageTag::Have) == 4,
        tag_byte(MessageTag::Bitfield) == 5,
        tag_byte(MessageTag::Request) == 6,
        tag_byte(MessageTag::Piece) == 7,
        tag_byte(MessageTag::Cancel) == 8,
        tag_byte(MessageTag::RejectRequest) == 16,
        tag_byte(MessageTag::Extension) == 20,
        tag_of_byte(0) == Some(MessageTag::Choke),
        tag_of_byte(1) == Some(MessageTag::Unchoke),
        tag_of_byte(2) == Some(MessageTag::Interested),
        tag_of_byte(3) == Some(MessageTag::NotInterested),
        tag_of_byte(4) == Some(MessageTag::Have),
        tag_of_byte(5) == Some(MessageTag::Bitfield),
        tag_of_byte(6) == Some(MessageTag::Request),
        tag_of_byte(7) == Some(MessageTag::Piece),
        tag_of_byte(8) == Some(MessageTag::Cancel),
        tag_of_byte(16) == Some(MessageTag::RejectRequest),
        tag_of_byte(20) == Some(MessageTag::Extension),
        forall|b: u8| !(b <= 8 || b == 16 || b == 20) ==> tag_of_byte(b) is None,
{
}

/// Reading back the byte of a tag gives the tag.
pub proof fn lemma_tag_roundtrip(tag: MessageTag)
    ensures
        spec_tag_from_u8(tag_byte(tag)) == Ok::<MessageTag, TorrentError>(tag),
{
}


// ----------------- HANDSHAKE -----------------

/// The first message on a connection: protocol name, capability bits,
/// the torrent's info hash and the sender's peer id.
#[derive(Debug, Clone, Copy, PartialEq, Eq)]
pub struct PeerHandshake {
    pub protocol_length: u8,
    pub protocol: [u8; 19],
    pub reserved: [u8; 8],
    pub info_hash: HashId,
    pub peer_id: PeerId,
}

impl View for PeerHandshake {
    type V = PeerHandshake;

    open spec fn view(&self) -> PeerHandshake {
        *self
    }
}

/// The bytes of the protocol name "BitTorrent protocol".
pub open spec fn protocol_name() -> Seq<u8> {
    seq![66u8, 105, 116, 84, 111, 114, 114, 101, 110, 116, 32, 112, 114, 111, 116, 111, 99, 111, 108]
}

/// The reserved bytes that announce support for the extension protocol
/// (bit 20 counted from the least significant end).
pub open spec fn extension_reserved() -> Seq<u8> {
    seq![0u8, 0, 0, 0, 0, 16, 0, 0]
}

/// The number of bytes of a handshake on the wire.
pub const HANDSHAKE_LENGTH: usize = 68;

/// The wire bytes of a handshake: each field in order, with no padding.
pub open spec fn handshake_bytes(h: PeerHandshake) -> Seq<u8> {
    seq![h.protocol_length] + h.protocol@ + h.reserved@ + h.info_hash.0@ + h.peer_id@
}

/// The handshake that the first 68 bytes of `data` stand for.
pub open spec fn handshake_of_bytes(data: Seq<u8>) -> PeerHandshake {
    PeerHandshake {
        protocol_length: data[0],
        protocol: array_of::<19>(data.subrange(1, 20)),
        reserved: array_of::<8>(data.subrange(20, 28)),
        info_hash: HashId(array_of::<20>(data.subrange(28, 48))),
        peer_id: array_of::<20>(data.subrange(48, 68)),
    }
}

impl PeerHandshake {
    /// A handshake for the given info hash and peer id (zeros and this
    /// client's id where they are absent), with no extension bits.
    pub fn default(info_hash: Option<HashId>, peer_id: Option<PeerId>) -> (res: Self)
        ensures
            res.protocol_length == 19,
            res.protocol@ == protocol_name(),
            res.reserved@ == Seq::new(8, |i: int| 0u8),
            res.info_hash == match info_hash {
                Some(h) => h,
                None => crate::types::zero_hash(),
            },
            res.peer_id == match peer_id {
                Some(p) => p,
                None => *crate::PEER_ID,
            },
            res == Self::default_spec(info_hash, peer_id),
    {
        let info_hash = match info_hash {
            Some(h) => h,
            None => HashId::default(),
        };
        let peer_id = match peer_id {
            Some(p) => p,
            None => *crate::PEER_ID,
        };
        let res = PeerHandshake {
            protocol_length: 19,
            protocol: [66, 105, 116, 84, 111, 114, 114, 101, 110, 116, 32, 112, 114, 111, 116, 111, 99, 111, 108],
            reserved: [0; 8],
            info_hash,
            peer_id,
        };
        proof {
            broadcast use vstd::array::group_array_axioms;
            assert(res.protocol@ =~= protocol_name());
            assert(res.reserved@ =~= Seq::new(8, |i: int| 0u8));
            lemma_array_of::<19>(res.protocol);
            lemma_array_of::<8>(res.reserved);
        }
        res
    }

    /// Like `default`, and with the extension bit set in the reserved bytes
    /// when `extension` holds.
    pub fn new(info_hash: Option<HashId>, peer_id: Option<PeerId>, extension: bool) -> (res: Self)
        ensures
            res == (PeerHandshake {
                reserved: if extension {
                    array_of::<8>(extension_reserved())
                } else {
                    array_of::<8>(Seq::new(8, |i: int| 0u8))
                },
                ..PeerHandshake::default_spec(info_hash, peer_id)
            }),
            extension ==> res.reserved@ == extension_reserved(),
            extension ==> res.reserved@ == seq![0u8, 0, 0, 0, 0, 16, 0, 0],
            !extension ==> res.reserved@ == Seq::new(8, |i: int| 0u8),
    {
        let mut handshake = Self::default(info_hash, peer_id);
        if extension {
            handshake.reserved = [0, 0, 0, 0, 0, 16, 0, 0];
            proof {
                assert(handshake.reserved@ =~= extension_reserved());
                lemma_array_of::<8>(handshake.reserved);
            }
        }
        handshake
    }

    /// The handshake that `default` builds.
    pub open spec fn default_spec(info_hash: Option<HashId>, peer_id: Option<PeerId>) -> PeerHandshake {
        PeerHandshake {
            protocol_length: 19,
            protocol: array_of::<19>(protocol_name()),
            reserved: array_of::<8>(Seq::new(8, |i: int| 0u8)),
            info_hash: match info_hash {
                Some(h) => h,
                None => crate::types::zero_hash(),
            },
            peer_id: match peer_id {
                Some(p) => p,
                None => *crate::PEER_ID,
            },
        }
    }
}

impl MessageSerialization for PeerHandshake {
    open spec fn serialize_requires(&self) -> bool {
        true
    }

    open spec fn spec_serialize(&self) -> Option<Seq<u8>> {
        Some(handshake_bytes(*self))
    }

    open spec fn deserialize_requires(data: Seq<u8>) -> bool {
        true
    }

    /// Fewer than 68 bytes is an error; bytes after the first 68 are not read.
    open spec fn spec_deserialize(data: Seq<u8>) -> Result<PeerHandshake, TorrentError> {
        if data.len() < 68 {
            Err(TorrentError::UnexpectedEnd)
        } else {
            Ok(handshake_of_bytes(data))
        }
    }

    fn serialize(&self) -> (res: Result<Vec<u8>, TorrentError>) {
        let mut out: Vec<u8> = Vec::new();
        out.push(self.protocol_length);
        append_bytes(&mut out, vstd::array::array_as_slice(&self.protocol));
        append_bytes(&mut out, vstd::array::array_as_slice(&self.reserved));
        append_bytes(&mut out, vstd::array::array_as_slice(&self.info_hash.0));
        append_bytes(&mut out, vstd::array::array_as_slice(&self.peer_id));
        assert(out@ =~= handshake_bytes(*self));
        Ok(out)
    }

    fn deserialize(data: &[u8]) -> (res: Result<Self, TorrentError>) {
        if data.len() < 68 {
            return Err(TorrentError::UnexpectedEnd);
        }
        let protocol: [u8; 19] = take_array(data, 1);
        let reserved: [u8; 8] = take_array(data, 20);
        let info_hash: [u8; 20] = take_array(data, 28);
        let peer_id: [u8; 20] = take_array(data, 48);
        let res = PeerHandshake {
            protocol_length: data[0],
            protocol,
            reserved,
            info_hash: HashId(info_hash),
            peer_id,
        };
        proof {
            lemma_array_of::<19>(protocol);
            lemma_array_of::<8>(reserved);
            lemma_array_of::<20>(info_hash);
            lemma_array_of::<20>(peer_id);
        }
        Ok(res)
    }
}


/// The handshake's wire layout: the protocol name's length at byte 0, the
/// name at 1..20, the reserved bytes at 20..28, the info hash at 28..48 and
/// the peer id at 48..68; reading a handshake takes each field from the same
/// place.
pub proof fn lemma_handshake_layout(h: PeerHandshake, b: Seq<u8>)
    ensures
        <PeerHandshake as MessageSerialization>::spec_serialize(&h) matches Some(s) && s.len() == 68
            && s[0] == h.protocol_length && s.subrange(1, 20) == h.protocol@ && s.subrange(20, 28) == h.reserved@
            && s.subrange(28, 48) == h.info_hash.0@ && s.subrange(48, 68) == h.peer_id@,
        b.len() >= 68 ==> (<PeerHandshake as MessageSerialization>::spec_deserialize(b) matches Ok(r)
            && r.protocol_length == b[0] && r.protocol@ == b.subrange(1, 20) && r.reserved@ == b.subrange(20, 28)
            && r.info_hash.0@ == b.subrange(28, 48) && r.peer_id@ == b.subrange(48, 68)),
{
    let s = handshake_bytes(h);
    assert(s.subrange(1, 20) =~= h.protocol@);
    assert(s.subrange(20, 28) =~= h.reserved@);
    assert(s.subrange(28, 48) =~= h.info_hash.0@);
    assert(s.subrange(48, 68) =~= h.peer_id@);
    if b.len() >= 68 {
        crate::wire::lemma_array_of_seq::<19>(b.subrange(1, 20));
        crate::wire::lemma_array_of_seq::<8>(b.subrange(20, 28));
        crate::wire::lemma_array_of_seq::<20>(b.subrange(28, 48));
        crate::wire::lemma_array_of_seq::<20>(b.subrange(48, 68));
    }
}

/// The protocol name is "BitTorrent protocol", and the extension bit is the
/// big-endian bytes of `1 << 20`.
pub proof fn lemma_protocol_constants()
    ensures
        protocol_name() == seq![66u8, 105, 116, 84, 111, 114, 114, 101, 110, 116, 32, 112, 114, 111, 116, 111, 99, 111, 108],
        extension_reserved() == seq![0u8, 0, 0, 0, 0, 16, 0, 0],
        extension_reserved()[5] == ((1u64 << 20u64) >> 16u64) as u8,
{
    assert(((1u64 << 20u64) >> 16u64) as u8 == 16) by (bit_vector);
}

/// A handshake read back from its own bytes is the same handshake.
pub proof fn lemma_handshake_roundtrip(h: PeerHandshake)
    ensures
        handshake_bytes(h).len() == HANDSHAKE_LENGTH,
        <PeerHandshake as MessageSerialization>::spec_deserialize(handshake_bytes(h))
            == Ok::<PeerHandshake, TorrentError>(h),
{
    let b = handshake_bytes(h);
    assert(b.subrange(1, 20) =~= h.protocol@);
    assert(b.subrange(20, 28) =~= h.reserved@);
    assert(b.subrange(28, 48) =~= h.info_hash.0@);
    assert(b.subrange(48, 68) =~= h.peer_id@);
    lemma_array_of::<19>(h.protocol);
    lemma_array_of::<8>(h.reserved);
    lemma_array_of::<20>(h.info_hash.0);
    lemma_array_of::<20>(h.peer_id);
}

// ----------------- PEER MESSAGES -----------------

/// A message after the handshake: a tag and a payload, sent behind a
/// four-byte big-endian length that counts the tag and the payload.
#[derive(Debug, Clone, PartialEq, Eq)]
pub struct PeerMessage<T> where T: MessageSerialization {
    pub message_tag: MessageTag,
    pub message: T,
}

/// A message whose payload is kept as raw bytes.
pub type PeerMessageBuffer = PeerMessage<Vec<u8>>;

/// A message whose payload is an extension payload.
pub type PeerExtMessageBuffer<T> = PeerMessage<ExtensionPayload<T>>;

impl<T: MessageSerialization> View for PeerMessage<T> {
    type V = (MessageTag, T::V);

    open spec fn view(&self) -> (MessageTag, T::V) {
        (self.message_tag, self.message@)
    }
}

/// The length prefix of a frame whose payload has `len` bytes: the payload
/// length, cut to 32 bits, plus one for the tag byte.
pub open spec fn frame_length(len: nat) -> u32 {
    ((len % 0x1_0000_0000) + 1) as u32
}

/// A payload length for which the length prefix does not overflow.
pub open spec fn frame_length_fits(len: nat) -> bool {
    len % 0x1_0000_0000 != 0xFFFF_FFFF
}

/// The bytes of a frame with the given tag and payload bytes.
pub open spec fn frame_bytes(tag: MessageTag, payload: Seq<u8>) -> Seq<u8> {
    be_bytes(frame_length(payload.len())) + seq![tag_byte(tag)] + payload
}

/// The payload length announced by a frame (the length prefix less one).
pub open spec fn announced_payload_length(data: Seq<u8>) -> int {
    be_value(data.subrange(0, 4)) - 1
}

/// The frame bytes on which reading a message runs to completion: a length
/// prefix of at least one, a tag byte, and a payload that the payload type
/// can read wherever the tag is known and the payload is all there.
pub open spec fn frame_deserialize_requires<T: MessageSerialization>(data: Seq<u8>) -> bool {
    &&& data.len() >= 5
    &&& be_value(data.subrange(0, 4)) >= 1
    &&& (tag_of_byte(data[4]) is Some && data.len() - 5 >= announced_payload_length(data)
        ==> T::deserialize_requires(data.subrange(5, 5 + announced_payload_length(data))))
}

/// What reading a frame gives: an unknown tag, then a short payload, then
/// the payload type's own error, in that order.
pub open spec fn frame_deserialize<T: MessageSerialization>(data: Seq<u8>) -> Result<(MessageTag, T::V), TorrentError> {
    let n = announced_payload_length(data);
    match tag_of_byte(data[4]) {
        None => Err(TorrentError::UnknownTag(data[4])),
        Some(tag) => if data.len() - 5 < n {
            Err(TorrentError::UnexpectedEnd)
        } else {
            match T::spec_deserialize(data.subrange(5, 5 + n)) {
                Ok(v) => Ok((tag, v)),
                Err(e) => Err(e),
            }
        },
    }
}

impl<T> PeerMessage<T> where T: MessageSerialization {
    /// A message with the given tag and payload.
    pub fn new(message_tag: MessageTag, payload: T) -> (res: Self)
        ensures
            res.message_tag == message_tag,
            res.message == payload,
    {
        PeerMessage { message_tag, message: payload }
    }
}

impl PeerMessage<Vec<u8>> {
    /// Reads the raw payload as a `D`, keeping the tag.
    pub fn convert<D>(&self) -> (res: Result<PeerMessage<D>, TorrentError>)
        where D: MessageSerialization,
        requires
            D::deserialize_requires(self.message@),
        ensures
            match res {
                Ok(m) => m.message_tag == self.message_tag
                    && D::spec_deserialize(self.message@) == Ok::<D::V, TorrentError>(m.message@),
                Err(e) => D::spec_deserialize(self.message@) == Err::<D::V, TorrentError>(e),
            },
    {
        let payload = D::deserialize(self.message.as_slice())?;
        Ok(PeerMessage::new(self.message_tag, payload))
    }
}

impl<T> MessageSerialization for PeerMessage<T> where T: MessageSerialization {
    open spec fn serialize_requires(&self) -> bool {
        &&& self.message.serialize_requires()
        &&& (self.message.spec_serialize() matches Some(p) ==> frame_length_fits(p.len()))
    }

    open spec fn spec_serialize(&self) -> Option<Seq<u8>> {
        match self.message.spec_serialize() {
            Some(p) => Some(frame_bytes(self.message_tag, p)),
            None => None,
        }
    }

    open spec fn deserialize_requires(data: Seq<u8>) -> bool {
        frame_deserialize_requires::<T>(data)
    }

    open spec fn spec_deserialize(data: Seq<u8>) -> Result<(MessageTag, T::V), TorrentError> {
        frame_deserialize::<T>(data)
    }

    fn serialize(&self) -> (res: Result<Vec<u8>, TorrentError>) {
        let encoded_payload = self.message.serialize()?;
        let len64: u64 = encoded_payload.len() as u64;
        let payload_size: u32 = ((len64 % 0x1_0000_0000) as u32) + 1;
        let size_bytes = u32_to_be(payload_size);
        let mut buffer: Vec<u8> = Vec::new();
        append_bytes(&mut buffer, vstd::array::array_as_slice(&size_bytes));
        buffer.push(self.message_tag.to_u8());
        append_bytes(&mut buffer, encoded_payload.as_slice());
        assert(buffer@ =~= frame_bytes(self.message_tag, encoded_payload@));
        Ok(buffer)
    }

    fn deserialize(data: &[u8]) -> (res: Result<Self, TorrentError>) {
        let n = u32_from_be(data);
        assert(data@.subrange(0, 4) =~= data@.subrange(0, 4));
        assert(be_value(data@) == be_value(data@.subrange(0, 4)));
        let length: usize = (n - 1) as usize;
        let message_tag = MessageTag::from_u8(data[4])?;
        if data.len() - 5 < length {
            return Err(TorrentError::UnexpectedEnd);
        }
        let payload_data = vstd::slice::slice_subrange(data, 5, 5 + length);
        let payload = T::deserialize(payload_data)?;
        Ok(PeerMessage::new(message_tag, payload))
    }
}

// ----------------- EXTENSION PAYLOAD -----------------

/// The payload of an extension message: the extension's message id and
/// the extension's own payload.
#[derive(Debug, Clone, PartialEq, Eq)]
pub struct ExtensionPayload<T> where T: MessageSerialization {
    pub metadata_id: u8,
    pub payload: T,
}

impl<T: MessageSerialization> View for ExtensionPayload<T> {
    type V = (u8, T::V);

    open spec fn view(&self) -> (u8, T::V) {
        (self.metadata_id, self.payload@)
    }
}

impl<T> ExtensionPayload<T> where T: MessageSerialization {
    /// An extension payload with the given message id and payload.
    pub fn new(metadata_id: u8, payload: T) -> (res: Self)
        ensures
            res.metadata_id == metadata_id,
            res.payload == payload,
    {
        ExtensionPayload { metadata_id, payload }
    }

    /// This payload inside a message tagged `Extension`.
    pub fn into_peer_message(self) -> (res: PeerMessage<Self>)
        ensures
            res.message_tag == MessageTag::Extension,
            res.message == self,
    {
        PeerMessage::new(MessageTag::Extension, self)
    }
}

impl<T> MessageSerialization for ExtensionPayload<T> where T: MessageSerialization {
    open spec fn serialize_requires(&self) -> bool {
        self.payload.serialize_requires()
    }

    open spec fn spec_serialize(&self) -> Option<Seq<u8>> {
        match self.payload.spec_serialize() {
            Some(p) => Some(seq![self.metadata_id] + p),
            None => None,
        }
    }

    /// The first byte is read unchecked: the data must not be empty.
    open spec fn deserialize_requires(data: Seq<u8>) -> bool {
        data.len() >= 1 && T::deserialize_requires(data.subrange(1, data.len() as int))
    }

    open spec fn spec_deserialize(data: Seq<u8>) -> Result<(u8, T::V), TorrentError> {
        match T::spec_deserialize(data.subrange(1, data.len() as int)) {
            Ok(v) => Ok((data[0], v)),
            Err(e) => Err(e),
        }
    }

    fn serialize(&self) -> (res: Result<Vec<u8>, TorrentError>) {
        let mut bytes: Vec<u8> = Vec::new();
        bytes.push(self.metadata_id);
        let payload = self.payload.serialize()?;
        append_bytes(&mut bytes, payload.as_slice());
        assert(bytes@ =~= seq![self.metadata_id] + payload@);
        Ok(bytes)
    }

    fn deserialize(data: &[u8]) -> (res: Result<ExtensionPayload<T>, TorrentError>) {
        let rest = vstd::slice::slice_subrange(data, 1, data.len());
        let payload = T::deserialize(rest)?;
        Ok(ExtensionPayload { metadata_id: data[0], payload })
    }
}

// ----------------- RAW PAYLOADS -----------------

impl MessageSerialization for Vec<u8> {
    open spec fn serialize_requires(&self) -> bool {
        true
    }

    open spec fn spec_serialize(&self) -> Option<Seq<u8>> {
        Some(self@)
    }

    open spec fn deserialize_requires(data: Seq<u8>) -> bool {
        true
    }

    open spec fn spec_deserialize(data: Seq<u8>) -> Result<Seq<u8>, TorrentError> {
        Ok(data)
    }

    fn serialize(&self) -> (res: Result<Vec<u8>, TorrentError>) {
        Ok(vstd::slice::slice_to_vec(self.as_slice()))
    }

    fn deserialize(data: &[u8]) -> (res: Result<Self, TorrentError>) {
        Ok(vstd::slice::slice_to_vec(data))
    }
}


/// The bytes of a frame: a length prefix of four big-endian bytes that
/// counts the tag byte and the payload, then the tag's message id, then the
/// payload.
pub proof fn lemma_frame_layout(tag: MessageTag, payload: Seq<u8>)
    requires
        payload.len() < 0xFFFF_FFFF,
    ensures
        frame_bytes(tag, payload).len() == payload.len() + 5,
        frame_bytes(tag, payload).subrange(0, 4) == be_bytes((payload.len() + 1) as u32),
        be_value(frame_bytes(tag, payload).subrange(0, 4)) == payload.len() + 1,
        frame_bytes(tag, payload)[4] == tag_byte(tag),
        frame_bytes(tag, payload).subrange(5, payload.len() + 5int) == payload,
{
    let f = frame_bytes(tag, payload);
    let n = frame_length(payload.len());
    assert(n == payload.len() + 1);
    lemma_be_roundtrip(n);
    assert(f.subrange(0, 4) =~= be_bytes(n));
    assert(f.subrange(5, payload.len() + 5int) =~= payload);
}

/// A frame read back from its own bytes, with any bytes after it, gives
/// the tag and whatever the payload type reads from the payload bytes.
pub proof fn lemma_frame_roundtrip<T: MessageSerialization>(tag: MessageTag, payload: Seq<u8>, rest: Seq<u8>)
    requires
        payload.len() < 0xFFFF_FFFF,
    ensures
        frame_length_fits(payload.len()),
        T::deserialize_requires(payload) ==> frame_deserialize_requires::<T>(frame_bytes(tag, payload) + rest),
        frame_deserialize::<T>(frame_bytes(tag, payload) + rest) == match T::spec_deserialize(payload) {
            Ok(v) => Ok::<(MessageTag, T::V), TorrentError>((tag, v)),
            Err(e) => Err(e),
        },
{
    let f = frame_bytes(tag, payload) + rest;
    let n = frame_length(payload.len());
    lemma_be_roundtrip(n);
    assert(f.subrange(0, 4) =~= be_bytes(n));
    assert(n == payload.len() + 1);
    assert(f[4] == tag_byte(tag));
    lemma_tag_roundtrip(tag);
    assert(f.subrange(5, 5 + payload.len() as int) =~= payload);
}

/// Reading back the bytes of a message gives back the message wherever its
/// payload reads back from its own bytes.
pub proof fn lemma_peer_message_roundtrip<T: MessageSerialization>(m: PeerMessage<T>)
    requires
        m.message.serialize_requires(),
        m.message.spec_serialize() is Some,
        m.message.spec_serialize().unwrap().len() < 0xFFFF_FFFF,
        T::deserialize_requires(m.message.spec_serialize().unwrap()),
        T::spec_deserialize(m.message.spec_serialize().unwrap()) == Ok::<T::V, TorrentError>(m.message@),
    ensures
        m.serialize_requires(),
        PeerMessage::<T>::deserialize_requires(m.spec_serialize().unwrap()),
        PeerMessage::<T>::spec_deserialize(m.spec_serialize().unwrap()) == Ok::<(MessageTag, T::V), TorrentError>(m@),
{
    let p = m.message.spec_serialize().unwrap();
    lemma_frame_roundtrip::<T>(m.message_tag, p, Seq::empty());
    assert(frame_bytes(m.message_tag, p) + Seq::<u8>::empty() =~= frame_bytes(m.message_tag, p));
}

/// Reading back the bytes of a raw payload gives the same bytes.
pub proof fn lemma_raw_payload_roundtrip(v: Vec<u8>)
    ensures
        <Vec<u8> as MessageSerialization>::spec_deserialize(v.spec_serialize().unwrap()) == Ok::<Seq<u8>, TorrentError>(v@),
{
}

/// Reading back the bytes of an extension payload gives back the payload
/// wherever its inner payload reads back from its own bytes.
pub proof fn lemma_extension_payload_roundtrip<T: MessageSerialization>(e: ExtensionPayload<T>)
    requires
        e.payload.spec_serialize() is Some,
        T::deserialize_requires(e.payload.spec_serialize().unwrap()),
        T::spec_deserialize(e.payload.spec_serialize().unwrap()) == Ok::<T::V, TorrentError>(e.payload@),
    ensures
        ExtensionPayload::<T>::deserialize_requires(e.spec_serialize().unwrap()),
        ExtensionPayload::<T>::spec_deserialize(e.spec_serialize().unwrap()) == Ok::<(u8, T::V), TorrentError>(e@),
{
    let p = e.payload.spec_serialize().unwrap();
    let b = seq![e.metadata_id] + p;
    assert(b.subrange(1, b.len() as int) =~= p);
}

// ----------------- PIECE REQUESTS -----------------

/// A request for `length` bytes of piece `index`, starting at `begin`.
/// The numbers are kept in their big-endian wire form.
#[derive(Debug, Clone)]
pub struct PieceRequestMessage {
    index: [u8; 4],
    begin: [u8; 4],
    length: [u8; 4],
}

impl View for PieceRequestMessage {
    type V = (u32, u32, u32);

    /// The piece index, the offset and the length.
    closed spec fn view(&self) -> (u32, u32, u32) {
        (be_value(self.index@) as u32, be_value(self.begin@) as u32, be_value(self.length@) as u32)
    }
}

impl PieceRequestMessage {
    /// The wire bytes of this request are its numbers, big-endian.
    proof fn lemma_wire(&self)
        ensures
            self.index@ + self.begin@ + self.length@ == be_bytes(self@.0) + be_bytes(self@.1) + be_bytes(self@.2),
    {
        crate::wire::lemma_be_value_bytes(self.index@);
        crate::wire::lemma_be_value_bytes(self.begin@);
        crate::wire::lemma_be_value_bytes(self.length@);
    }

    /// A request for `length` bytes of piece `index` from offset `begin`.
    pub fn new(index: u32, begin: u32, length: u32) -> (res: Self)
        ensures
            res@ == (index, begin, length),
    {
        proof {
            lemma_be_roundtrip(index);
            lemma_be_roundtrip(begin);
            lemma_be_roundtrip(length);
        }
        PieceRequestMessage { index: u32_to_be(index), begin: u32_to_be(begin), length: u32_to_be(length) }
    }

    /// The piece index.
    pub fn index(&self) -> (res: u32)
        ensures
            res == self@.0,
    {
        u32_from_be(vstd::array::array_as_slice(&self.index))
    }

    /// The offset within the piece.
    pub fn begin(&self) -> (res: u32)
        ensures
            res == self@.1,
    {
        u32_from_be(vstd::array::array_as_slice(&self.begin))
    }

    /// The number of bytes requested.
    pub fn length(&self) -> (res: u32)
        ensures
            res == self@.2,
    {
        u32_from_be(vstd::array::array_as_slice(&self.length))
    }
}

/// A request whose twelve wire bytes are `b`.
pub open spec fn request_of_bytes(b: Seq<u8>) -> (u32, u32, u32) {
    (be_value(b.subrange(0, 4)) as u32, be_value(b.subrange(4, 8)) as u32, be_value(b.subrange(8, 12)) as u32)
}

impl MessageSerialization for PieceRequestMessage {
    open spec fn serialize_requires(&self) -> bool {
        true
    }

    /// Index, offset and length, big-endian.
    open spec fn spec_serialize(&self) -> Option<Seq<u8>> {
        Some(be_bytes(self@.0) + be_bytes(self@.1) + be_bytes(self@.2))
    }

    open spec fn deserialize_requires(data: Seq<u8>) -> bool {
        true
    }

    /// Fewer than 12 bytes is an error; bytes after the first 12 are not read.
    open spec fn spec_deserialize(data: Seq<u8>) -> Result<(u32, u32, u32), TorrentError> {
        if data.len() < 12 {
            Err(TorrentError::UnexpectedEnd)
        } else {
            Ok(request_of_bytes(data))
        }
    }

    fn serialize(&self) -> (res: Result<Vec<u8>, TorrentError>) {
        let mut out: Vec<u8> = Vec::new();
        append_bytes(&mut out, vstd::array::array_as_slice(&self.index));
        append_bytes(&mut out, vstd::array::array_as_slice(&self.begin));
        append_bytes(&mut out, vstd::array::array_as_slice(&self.length));
        proof {
            self.lemma_wire();
        }
        Ok(out)
    }

    fn deserialize(data: &[u8]) -> (res: Result<Self, TorrentError>) {
        if data.len() < 12 {
            return Err(TorrentError::UnexpectedEnd);
        }
        let res = PieceRequestMessage { index: take_array(data, 0), begin: take_array(data, 4), length: take_array(data, 8) };
        Ok(res)
    }
}

/// The wire bytes of a request: twelve bytes, the piece index at 0..4, the
/// offset at 4..8 and the length at 8..12, each big-endian; reading takes
/// the three numbers from the same places.
pub proof fn lemma_piece_request_layout(r: PieceRequestMessage, b: Seq<u8>)
    ensures
        r.spec_serialize().unwrap().len() == 12,
        be_value(r.spec_serialize().unwrap().subrange(0, 4)) == r@.0,
        be_value(r.spec_serialize().unwrap().subrange(4, 8)) == r@.1,
        be_value(r.spec_serialize().unwrap().subrange(8, 12)) == r@.2,
        b.len() >= 12 ==> PieceRequestMessage::spec_deserialize(b) == Ok::<(u32, u32, u32), TorrentError>((
            be_value(b.subrange(0, 4)) as u32,
            be_value(b.subrange(4, 8)) as u32,
            be_value(b.subrange(8, 12)) as u32,
        )),
{
    let w = r.spec_serialize().unwrap();
    lemma_be_roundtrip(r@.0);
    lemma_be_roundtrip(r@.1);
    lemma_be_roundtrip(r@.2);
    assert(w.subrange(0, 4) =~= be_bytes(r@.0));
    assert(w.subrange(4, 8) =~= be_bytes(r@.1));
    assert(w.subrange(8, 12) =~= be_bytes(r@.2));
}

/// The numbers of a request survive its wire bytes.
pub proof fn lemma_piece_request_roundtrip(r: PieceRequestMessage)
    ensures
        PieceRequestMessage::spec_deserialize(r.spec_serialize().unwrap()) == Ok::<(u32, u32, u32), TorrentError>(r@),
{
    let b = r.spec_serialize().unwrap();
    assert(b.subrange(0, 4) =~= be_bytes(r@.0));
    assert(b.subrange(4, 8) =~= be_bytes(r@.1));
    assert(b.subrange(8, 12) =~= be_bytes(r@.2));
    lemma_be_roundtrip(r@.0);
    lemma_be_roundtrip(r@.1);
    lemma_be_roundtrip(r@.2);
}

// ----------------- PIECES -----------------

/// The eight little-endian bytes of `n`.
pub open spec fn le_bytes_u64(n: nat, count: nat) -> Seq<u8>
    decreases count,
{
    if count == 0 {
        seq![]
    } else {
        seq![(n % 256) as u8] + le_bytes_u64(n / 256, (count - 1) as nat)
    }
}

/// Appends the eight little-endian bytes of `n` to `v`.
fn append_u64_le(v: &mut Vec<u8>, n: u64)
    ensures
        final(v)@ == old(v)@ + le_bytes_u64(n as nat, 8),
{
    let ghost start = v@;
    let mut rest: u64 = n;
    let mut i: usize = 0;
    while i < 8
        invariant
            i <= 8,
            v@ + le_bytes_u64(rest as nat, (8 - i) as nat) == start + le_bytes_u64(n as nat, 8),
        decreases 8 - i,
    {
        let ghost before = v@;
        assert(le_bytes_u64(rest as nat, (8 - i) as nat) =~= seq![(rest % 256) as u8]
            + le_bytes_u64((rest / 256) as nat, (8 - i - 1) as nat));
        v.push((rest % 256) as u8);
        assert(v@ =~= before + seq![(rest % 256) as u8]);
        let ghost old_rest = rest;
        rest = rest / 256;
        i = i + 1;
        assert(v@ + le_bytes_u64(rest as nat, (8 - i) as nat) =~= before + (seq![(old_rest % 256) as u8]
            + le_bytes_u64(rest as nat, (8 - i) as nat)));
    }
    assert(le_bytes_u64(rest as nat, 0) =~= Seq::<u8>::empty());
    assert(v@ =~= v@ + le_bytes_u64(rest as nat, 0));
}

/// A block of piece data: the piece index, the offset of the block and the
/// block's bytes.
#[derive(Debug)]
pub struct PieceMessage {
    index: [u8; 4],
    begin: [u8; 4],
    block: Vec<u8>,
}

impl View for PieceMessage {
    type V = (u32, u32, Seq<u8>);

    /// The piece index, the offset and the block's bytes.
    closed spec fn view(&self) -> (u32, u32, Seq<u8>) {
        (be_value(self.index@) as u32, be_value(self.begin@) as u32, self.block@)
    }
}

impl PieceMessage {
    /// A block of piece `index` at offset `begin`.
    pub fn new(index: u32, begin: u32, block: Vec<u8>) -> (res: Self)
        ensures
            res@ == (index, begin, block@),
    {
        proof {
            lemma_be_roundtrip(index);
            lemma_be_roundtrip(begin);
        }
        PieceMessage { index: u32_to_be(index), begin: u32_to_be(begin), block }
    }

    /// The piece index.
    pub fn index(&self) -> (res: u32)
        ensures
            res == self@.0,
    {
        u32_from_be(vstd::array::array_as_slice(&self.index))
    }

    /// The offset of the block within the piece.
    pub fn begin(&self) -> (res: u32)
        ensures
            res == self@.1,
    {
        u32_from_be(vstd::array::array_as_slice(&self.begin))
    }

    /// The block's bytes.
    pub fn block(&self) -> (res: &[u8])
        ensures
            res@ == self@.2,
    {
        self.block.as_slice()
    }

    /// The number of bytes in the block, cut to 32 bits.
    pub fn length(&self) -> (res: u32)
        ensures
            res == self@.2.len() % 0x1_0000_0000,
    {
        ((self.block.len() as u64) % 0x1_0000_0000) as u32
    }
}

impl MessageSerialization for PieceMessage {
    open spec fn serialize_requires(&self) -> bool {
        true
    }

    /// Index and offset big-endian, then the block behind its length as
    /// eight little-endian bytes.
    open spec fn spec_serialize(&self) -> Option<Seq<u8>> {
        Some(be_bytes(self@.0) + be_bytes(self@.1) + le_bytes_u64(self@.2.len(), 8) + self@.2)
    }

    /// The index and the offset are read unchecked: at least eight bytes.
    open spec fn deserialize_requires(data: Seq<u8>) -> bool {
        data.len() >= 8
    }

    /// Index and offset big-endian; every byte after them is the block.
    open spec fn spec_deserialize(data: Seq<u8>) -> Result<(u32, u32, Seq<u8>), TorrentError> {
        Ok((be_value(data.subrange(0, 4)) as u32, be_value(data.subrange(4, 8)) as u32, data.subrange(8, data.len() as int)))
    }

    fn serialize(&self) -> (res: Result<Vec<u8>, TorrentError>) {
        let mut out: Vec<u8> = Vec::new();
        append_bytes(&mut out, vstd::array::array_as_slice(&self.index));
        append_bytes(&mut out, vstd::array::array_as_slice(&self.begin));
        append_u64_le(&mut out, self.block.len() as u64);
        append_bytes(&mut out, self.block.as_slice());
        proof {
            crate::wire::lemma_be_value_bytes(self.index@);
            crate::wire::lemma_be_value_bytes(self.begin@);
        }
        Ok(out)
    }

    fn deserialize(data: &[u8]) -> (res: Result<Self, TorrentError>) {
        let index = u32_from_be(data);
        let begin = u32_from_be(vstd::slice::slice_subrange(data, 4, data.len()));
        assert(data@.subrange(4, data@.len() as int).subrange(0, 4) =~= data@.subrange(4, 8));
        assert(data@.subrange(0, 4) =~= data@.subrange(0, 4));
        let block = vstd::slice::slice_to_vec(vstd::slice::slice_subrange(data, 8, data.len()));
        proof {
            crate::wire::lemma_be_value_bytes(data@.subrange(0, 4));
            crate::wire::lemma_be_value_bytes(data@.subrange(4, 8));
            lemma_be_roundtrip(index);
            lemma_be_roundtrip(begin);
        }
        Ok(PieceMessage::new(index, begin, block))
    }
}

/// `le_bytes_u64` gives as many bytes as asked for.
proof fn lemma_le_bytes_len(n: nat, count: nat)
    ensures
        le_bytes_u64(n, count).len() == count,
    decreases count,
{
    if count > 0 {
        lemma_le_bytes_len(n / 256, (count - 1) as nat);
    }
}

/// The wire bytes of a piece message: the piece index at 0..4 and the
/// offset at 4..8, big-endian, the block's length in the eight bytes 8..16,
/// then the block; reading takes the index and the offset from the first
/// eight bytes and every byte after them as the block.
pub proof fn lemma_piece_layout(m: PieceMessage, b: Seq<u8>)
    ensures
        m.spec_serialize().unwrap().len() == 16 + m@.2.len(),
        be_value(m.spec_serialize().unwrap().subrange(0, 4)) == m@.0,
        be_value(m.spec_serialize().unwrap().subrange(4, 8)) == m@.1,
        m.spec_serialize().unwrap().subrange(8, 16) == le_bytes_u64(m@.2.len(), 8),
        m.spec_serialize().unwrap().subrange(16, 16int + m@.2.len()) == m@.2,
        b.len() >= 8 ==> PieceMessage::spec_deserialize(b) == Ok::<(u32, u32, Seq<u8>), TorrentError>((
            be_value(b.subrange(0, 4)) as u32,
            be_value(b.subrange(4, 8)) as u32,
            b.subrange(8, b.len() as int),
        )),
{
    let w = m.spec_serialize().unwrap();
    lemma_le_bytes_len(m@.2.len(), 8);
    lemma_be_roundtrip(m@.0);
    lemma_be_roundtrip(m@.1);
    assert(w.subrange(0, 4) =~= be_bytes(m@.0));
    assert(w.subrange(4, 8) =~= be_bytes(m@.1));
    assert(w.subrange(8, 16) =~= le_bytes_u64(m@.2.len(), 8));
    assert(w.subrange(16, 16int + m@.2.len()) =~= m@.2);
}

// ----------------- EXTENSION HANDSHAKE -----------------

/// The key "m".
pub open spec fn key_m() -> Seq<u8> {
    seq![109u8]
}

/// The key "p".
pub open spec fn key_p() -> Seq<u8> {
    seq![112u8]
}

/// The key "metadata_size".
pub open spec fn key_metadata_size() -> Seq<u8> {
    seq![109u8, 101, 116, 97, 100, 97, 116, 97, 95, 115, 105, 122, 101]
}

/// The key "reqq".
pub open spec fn key_reqq() -> Seq<u8> {
    seq![114u8, 101, 113, 113]
}

/// The key "v".
pub open spec fn key_v() -> Seq<u8> {
    seq![118u8]
}

/// The key "ut_metadata".
pub open spec fn key_ut_metadata() -> Seq<u8> {
    seq![117u8, 116, 95, 109, 101, 116, 97, 100, 97, 116, 97]
}

/// The key "ut_pex".
pub open spec fn key_ut_pex() -> Seq<u8> {
    seq![117u8, 116, 95, 112, 101, 120]
}

/// The message ids that a peer gives the extensions it supports.
#[derive(Debug, Clone, Copy, PartialEq, Eq, Structural)]
pub struct ExtensionHandshakeMetaData {
    pub ut_metadata: u8,
    pub ut_pex: Option<u8>,
}

/// An optional byte as an optional number.
pub open spec fn opt_u8_int(n: Option<u8>) -> Option<int> {
    match n {
        Some(x) => Some(x as int),
        None => None,
    }
}

/// An optional `u16` as an optional number.
pub open spec fn opt_u16_int(n: Option<u16>) -> Option<int> {
    match n {
        Some(x) => Some(x as int),
        None => None,
    }
}

/// An optional `u32` as an optional number.
pub open spec fn opt_u32_int(n: Option<u32>) -> Option<int> {
    match n {
        Some(x) => Some(x as int),
        None => None,
    }
}

/// The bencode dictionary of extension ids; an absent id is left out.
pub open spec fn metadata_bview(md: ExtensionHandshakeMetaData) -> BView {
    BView::Dict(opt_insert(Map::empty().insert(key_ut_metadata(), BView::Int(md.ut_metadata as int)),
        key_ut_pex(), opt_int(opt_u8_int(md.ut_pex))))
}

/// What reading extension ids from a bencode value gives. A dictionary needs
/// "ut_metadata" ("ut_pex" may be absent; other keys are not read); a key
/// that is not UTF-8, or an id that is not a byte, is an invalid field, and
/// that comes before a missing one. A list gives both ids in order.
/// The dictionary is read as the decoded map, so a key given twice counts
/// once, with its last value.
pub open spec fn spec_metadata_of(v: BView) -> Result<ExtensionHandshakeMetaData, TorrentError> {
    match v {
        BView::Dict(m) => if !keys_utf8(m) || field_invalid(m, key_ut_metadata(), |b: BView| u8_field(b))
            || field_invalid(m, key_ut_pex(), |b: BView| u8_field(b)) {
            Err(TorrentError::InvalidField)
        } else if !m.dom().contains(key_ut_metadata()) {
            Err(TorrentError::MissingField)
        } else {
            Ok(ExtensionHandshakeMetaData {
                ut_metadata: u8_field(m[key_ut_metadata()]).unwrap(),
                ut_pex: opt_field(m, key_ut_pex(), |b: BView| u8_field(b)),
            })
        },
        BView::List(items) => if items.len() < 1 {
            Err(TorrentError::InvalidLength)
        } else if u8_field(items[0]) is None {
            Err(TorrentError::InvalidField)
        } else if items.len() < 2 {
            Err(TorrentError::InvalidLength)
        } else if u8_field(items[1]) is None {
            Err(TorrentError::InvalidField)
        } else {
            Ok(ExtensionHandshakeMetaData { ut_metadata: u8_field(items[0]).unwrap(), ut_pex: u8_field(items[1]) })
        },
        _ => Err(TorrentError::InvalidField),
    }
}

/// The dictionary keys of the extension protocol are ASCII, so UTF-8.
pub proof fn lemma_extension_keys_utf8()
    ensures
        valid_utf8(key_m()),
        valid_utf8(key_p()),
        valid_utf8(key_metadata_size()),
        valid_utf8(key_reqq()),
        valid_utf8(key_v()),
        valid_utf8(key_ut_metadata()),
        valid_utf8(key_ut_pex()),
{
    lemma_ascii_valid_utf8(key_m());
    lemma_ascii_valid_utf8(key_p());
    lemma_ascii_valid_utf8(key_metadata_size());
    lemma_ascii_valid_utf8(key_reqq());
    lemma_ascii_valid_utf8(key_v());
    lemma_ascii_valid_utf8(key_ut_metadata());
    lemma_ascii_valid_utf8(key_ut_pex());
}

/// Extension ids read back from their dictionary are the same ids.
pub proof fn lemma_metadata_roundtrip(md: ExtensionHandshakeMetaData)
    ensures
        spec_metadata_of(metadata_bview(md)) == Ok::<ExtensionHandshakeMetaData, TorrentError>(md),
{
    lemma_extension_keys_utf8();
    assert(key_ut_metadata() != key_ut_pex()) by {
        assert(key_ut_metadata().len() != key_ut_pex().len());
    }
    let m = match metadata_bview(md) {
        BView::Dict(m) => m,
        _ => Map::empty(),
    };
    assert(keys_utf8(m)) by {
        assert forall|k: Seq<u8>| m.dom().contains(k) implies valid_utf8(k) by {
            assert(k == key_ut_metadata() || k == key_ut_pex());
        }
    }
}

impl ExtensionHandshakeMetaData {
    /// Reads extension ids from a bencode value.
    fn from_bencode(v: &BencodeValue) -> (res: Result<ExtensionHandshakeMetaData, TorrentError>)
        ensures
            match res {
                Ok(md) => spec_metadata_of(v@) == Ok::<ExtensionHandshakeMetaData, TorrentError>(md),
                Err(e) => spec_metadata_of(v@) == Err::<ExtensionHandshakeMetaData, TorrentError>(e),
            },
    {
        match v {
            BencodeValue::Dict(entries) => {
                let ghost m = entries_view(entries@);
                assert(v@ == BView::Dict(m));
                let keys_ok = all_keys_utf8(entries);
                let k_id: [u8; 11] = [117, 116, 95, 109, 101, 116, 97, 100, 97, 116, 97];
                let k_pex: [u8; 6] = [117, 116, 95, 112, 101, 120];
                assert(k_id@ =~= key_ut_metadata());
                assert(k_pex@ =~= key_ut_pex());
                let id: Option<Option<u8>> = match dict_get(entries, vstd::array::array_as_slice(&k_id)) {
                    Some(x) => Some(read_u8(x)),
                    None => None,
                };
                let pex: Option<Option<u8>> = match dict_get(entries, vstd::array::array_as_slice(&k_pex)) {
                    Some(x) => Some(read_u8(x)),
                    None => None,
                };
                if !keys_ok || (id.is_some() && id.unwrap().is_none()) || (pex.is_some() && pex.unwrap().is_none()) {
                    return Err(TorrentError::InvalidField);
                }
                let ut_pex = match pex {
                    Some(Some(x)) => Some(x),
                    _ => None,
                };
                match id {
                    Some(Some(ut_metadata)) => Ok(ExtensionHandshakeMetaData { ut_metadata, ut_pex }),
                    _ => Err(TorrentError::MissingField),
                }
            },
            BencodeValue::List(items) => {
                proof {
                    crate::json::lemma_list_view(items@);
                }
                assert(v@ == BView::List(crate::bencode::list_view(items@)));
                if items.len() < 1 {
                    return Err(TorrentError::InvalidLength);
                }
                let ut_metadata = match read_u8(&items[0]) {
                    Some(x) => x,
                    None => {
                        return Err(TorrentError::InvalidField);
                    },
                };
                if items.len() < 2 {
                    return Err(TorrentError::InvalidLength);
                }
                let ut_pex = match read_u8(&items[1]) {
                    Some(x) => x,
                    None => {
                        return Err(TorrentError::InvalidField);
                    },
                };
                Ok(ExtensionHandshakeMetaData { ut_metadata, ut_pex: Some(ut_pex) })
            },
            _ => Err(TorrentError::InvalidField),
        }
    }

    /// The bencode dictionary of these ids.
    fn to_bencode(&self) -> (res: BencodeValue)
        ensures
            res@ == metadata_bview(*self),
    {
        let mut e: Vec<(Vec<u8>, BencodeValue)> = Vec::new();
        let first = (vec![117u8, 116, 95, 109, 101, 116, 97, 100, 97, 116, 97], BencodeValue::Int(self.ut_metadata as i64));
        proof {
            lemma_entries_view_push(e@, first);
            assert(e@.push(first).drop_last() =~= e@);
            assert(first.0@ =~= key_ut_metadata());
        }
        e.push(first);
        assert(entries_view(e@) =~= Map::empty().insert(key_ut_metadata(), BView::Int(self.ut_metadata as int)));
        match self.ut_pex {
            Some(x) => {
                let next = (vec![117u8, 116, 95, 112, 101, 120], BencodeValue::Int(x as i64));
                proof {
                    lemma_entries_view_push(e@, next);
                    assert(next.0@ =~= key_ut_pex());
                }
                e.push(next);
            },
            None => {},
        }
        BencodeValue::Dict(e)
    }
}

/// An extension handshake as a value.
pub ghost struct ExtensionHandshakeView {
    pub metadata: ExtensionHandshakeMetaData,
    pub local_listen_port: Option<u16>,
    pub metadata_size: Option<u32>,
    pub max_outstanding_requests: Option<u32>,
    pub version: Option<Seq<char>>,
    pub your_ip: Option<Seq<u8>>,
    pub ipv6: Option<[u8; 16]>,
    pub ipv4: Option<[u8; 4]>,
}

/// The handshake of the extension protocol: the peer's extension ids, its
/// listening port, the size of the torrent's metadata, how many requests
/// it queues and its client's name. The addresses (the address the peer
/// sees this client at, as 4 or 16 bytes, and the peer's own IPv6 and IPv4
/// addresses) are kept here but neither written nor read.
#[derive(Debug, Clone)]
pub struct ExtensionHandshakeMessage {
    pub metadata: ExtensionHandshakeMetaData,
    pub local_listen_port: Option<u16>,
    pub metadata_size: Option<u32>,
    pub max_outstanding_requests: Option<u32>,
    pub version: Option<String>,
    pub your_ip: Option<Vec<u8>>,
    pub ipv6: Option<[u8; 16]>,
    pub ipv4: Option<[u8; 4]>,
}

impl View for ExtensionHandshakeMessage {
    type V = ExtensionHandshakeView;

    open spec fn view(&self) -> ExtensionHandshakeView {
        ExtensionHandshakeView {
            metadata: self.metadata,
            local_listen_port: self.local_listen_port,
            metadata_size: self.metadata_size,
            max_outstanding_requests: self.max_outstanding_requests,
            version: match self.version {
                Some(t) => Some(t@),
                None => None,
            },
            your_ip: match self.your_ip {
                Some(a) => Some(a@),
                None => None,
            },
            ipv6: self.ipv6,
            ipv4: self.ipv4,
        }
    }
}

/// A handshake without the addresses, which are neither written nor read.
pub open spec fn without_addresses(h: ExtensionHandshakeView) -> ExtensionHandshakeView {
    ExtensionHandshakeView { your_ip: None, ipv6: None, ipv4: None, ..h }
}

/// The bencode dictionary of an extension handshake; absent fields are
/// left out, and the addresses are not written.
pub open spec fn handshake_bview(h: ExtensionHandshakeView) -> BView {
    let m0 = Map::empty().insert(key_m(), metadata_bview(h.metadata));
    let m1 = opt_insert(m0, key_p(), opt_int(opt_u16_int(h.local_listen_port)));
    let m2 = opt_insert(m1, key_metadata_size(), opt_int(opt_u32_int(h.metadata_size)));
    let m3 = opt_insert(m2, key_reqq(), opt_int(opt_u32_int(h.max_outstanding_requests)));
    let m4 = opt_insert(m3, key_v(), match h.version {
        Some(t) => Some(BView::Bytes(encode_utf8(t))),
        None => None,
    });
    BView::Dict(m4)
}

/// What reading an extension handshake from a bencode value gives. A
/// dictionary needs "m" (the other fields may be absent; other keys are not
/// read). A key that is not UTF-8, or a present field of the wrong kind, is
/// an invalid field; then a missing "m"; then what reading the ids gives. A
/// list gives the five fields in order.
/// The dictionary is read as the decoded map, so a key given twice counts
/// once, with its last value.
pub open spec fn spec_handshake_of(v: BView) -> Result<ExtensionHandshakeView, TorrentError> {
    match v {
        BView::Dict(m) => if !keys_utf8(m) || field_invalid(m, key_p(), |b: BView| u16_field(b))
            || field_invalid(m, key_metadata_size(), |b: BView| u32_field(b))
            || field_invalid(m, key_reqq(), |b: BView| u32_field(b))
            || field_invalid(m, key_v(), |b: BView| text_field(b)) {
            Err(TorrentError::InvalidField)
        } else if !m.dom().contains(key_m()) {
            Err(TorrentError::MissingField)
        } else {
            match spec_metadata_of(m[key_m()]) {
                Err(e) => Err(e),
                Ok(md) => Ok(ExtensionHandshakeView {
                    metadata: md,
                    local_listen_port: opt_field(m, key_p(), |b: BView| u16_field(b)),
                    metadata_size: opt_field(m, key_metadata_size(), |b: BView| u32_field(b)),
                    max_outstanding_requests: opt_field(m, key_reqq(), |b: BView| u32_field(b)),
                    version: opt_field(m, key_v(), |b: BView| text_field(b)),
                    your_ip: None,
                    ipv6: None,
                    ipv4: None,
                }),
            }
        },
        BView::List(items) => if items.len() < 1 {
            Err(TorrentError::InvalidLength)
        } else {
            match spec_metadata_of(items[0]) {
                Err(e) => Err(e),
                Ok(md) => if items.len() < 2 {
                    Err(TorrentError::InvalidLength)
                } else if u16_field(items[1]) is None {
                    Err(TorrentError::InvalidField)
                } else if items.len() < 3 {
                    Err(TorrentError::InvalidLength)
                } else if u32_field(items[2]) is None {
                    Err(TorrentError::InvalidField)
                } else if items.len() < 4 {
                    Err(TorrentError::InvalidLength)
                } else if u32_field(items[3]) is None {
                    Err(TorrentError::InvalidField)
                } else if items.len() < 5 {
                    Err(TorrentError::InvalidLength)
                } else if text_field(items[4]) is None {
                    Err(TorrentError::InvalidField)
                } else {
                    Ok(ExtensionHandshakeView {
                        metadata: md,
                        local_listen_port: u16_field(items[1]),
                        metadata_size: u32_field(items[2]),
                        max_outstanding_requests: u32_field(items[3]),
                        version: text_field(items[4]),
                        your_ip: None,
                        ipv6: None,
                        ipv4: None,
                    })
                },
            }
        },
        _ => Err(TorrentError::InvalidField),
    }
}

/// An extension handshake read back from its dictionary is the same
/// handshake, without the addresses.
pub proof fn lemma_extension_handshake_roundtrip(h: ExtensionHandshakeView)
    ensures
        spec_handshake_of(handshake_bview(h)) == Ok::<ExtensionHandshakeView, TorrentError>(without_addresses(h)),
{
    broadcast use vstd::utf8::encode_utf8_valid_utf8, vstd::utf8::encode_utf8_decode_utf8;
    lemma_extension_keys_utf8();
    lemma_metadata_roundtrip(h.metadata);
    assert(key_m() != key_p()) by {
        assert(key_m()[0] != key_p()[0]);
    }
    assert(key_m() != key_v()) by {
        assert(key_m()[0] != key_v()[0]);
    }
    assert(key_p() != key_v()) by {
        assert(key_p()[0] != key_v()[0]);
    }
    assert(key_m() != key_metadata_size()) by {
        assert(key_m().len() != key_metadata_size().len());
    }
    assert(key_m() != key_reqq()) by {
        assert(key_m().len() != key_reqq().len());
    }
    assert(key_p() != key_metadata_size()) by {
        assert(key_p().len() != key_metadata_size().len());
    }
    assert(key_p() != key_reqq()) by {
        assert(key_p().len() != key_reqq().len());
    }
    assert(key_v() != key_metadata_size()) by {
        assert(key_v().len() != key_metadata_size().len());
    }
    assert(key_v() != key_reqq()) by {
        assert(key_v().len() != key_reqq().len());
    }
    assert(key_reqq() != key_metadata_size()) by {
        assert(key_reqq().len() != key_metadata_size().len());
    }
    let m = match handshake_bview(h) {
        BView::Dict(m) => m,
        _ => Map::empty(),
    };
    assert(keys_utf8(m)) by {
        assert forall|k: Seq<u8>| m.dom().contains(k) implies valid_utf8(k) by {
            assert(k == key_m() || k == key_p() || k == key_metadata_size() || k == key_reqq() || k == key_v());
        }
    }
    assert(m.dom().contains(key_m()) && m[key_m()] == metadata_bview(h.metadata));
}

impl ExtensionHandshakeMessage {
    /// The handshake this client sends: it supports the metadata extension
    /// under id 1, and announces nothing else.
    pub fn default() -> (res: Self)
        ensures
            res.metadata == (ExtensionHandshakeMetaData { ut_metadata: 1, ut_pex: None }),
            res.local_listen_port is None,
            res.metadata_size is None,
            res.max_outstanding_requests is None,
            res.version is None,
            res.your_ip is None,
            res.ipv6 is None,
            res.ipv4 is None,
    {
        ExtensionHandshakeMessage {
            metadata: ExtensionHandshakeMetaData { ut_metadata: 1, ut_pex: None },
            local_listen_port: None,
            metadata_size: None,
            max_outstanding_requests: None,
            version: None,
            your_ip: None,
            ipv6: None,
            ipv4: None,
        }
    }

    /// Reads an extension handshake from a bencode value.
    pub fn from_bencode(v: &BencodeValue) -> (res: Result<ExtensionHandshakeMessage, TorrentError>)
        ensures
            match res {
                Ok(h) => spec_handshake_of(v@) == Ok::<ExtensionHandshakeView, TorrentError>(h@),
                Err(e) => spec_handshake_of(v@) == Err::<ExtensionHandshakeView, TorrentError>(e),
            },
    {
        match v {
            BencodeValue::Dict(entries) => {
                let ghost m = entries_view(entries@);
                assert(v@ == BView::Dict(m));
                let keys_ok = all_keys_utf8(entries);
                let k_m: [u8; 1] = [109];
                let k_p: [u8; 1] = [112];
                let k_size: [u8; 13] = [109, 101, 116, 97, 100, 97, 116, 97, 95, 115, 105, 122, 101];
                let k_reqq: [u8; 4] = [114, 101, 113, 113];
                let k_v: [u8; 1] = [118];
                assert(k_m@ =~= key_m());
                assert(k_p@ =~= key_p());
                assert(k_size@ =~= key_metadata_size());
                assert(k_reqq@ =~= key_reqq());
                assert(k_v@ =~= key_v());
                let port: Option<Option<u16>> = match dict_get(entries, vstd::array::array_as_slice(&k_p)) {
                    Some(x) => Some(read_u16(x)),
                    None => None,
                };
                let size: Option<Option<u32>> = match dict_get(entries, vstd::array::array_as_slice(&k_size)) {
                    Some(x) => Some(read_u32(x)),
                    None => None,
                };
                let reqq: Option<Option<u32>> = match dict_get(entries, vstd::array::array_as_slice(&k_reqq)) {
                    Some(x) => Some(read_u32(x)),
                    None => None,
                };
                let version: Option<Option<String>> = match dict_get(entries, vstd::array::array_as_slice(&k_v)) {
                    Some(x) => Some(read_text(x)),
                    None => None,
                };
                if !keys_ok || (port.is_some() && port.unwrap().is_none()) || (size.is_some() && size.unwrap().is_none())
                    || (reqq.is_some() && reqq.unwrap().is_none())
                    || (version.is_some() && version.as_ref().unwrap().is_none()) {
                    return Err(TorrentError::InvalidField);
                }
                let metadata = match dict_get(entries, vstd::array::array_as_slice(&k_m)) {
                    Some(x) => match ExtensionHandshakeMetaData::from_bencode(x) {
                        Ok(md) => md,
                        Err(e) => {
                            return Err(e);
                        },
                    },
                    None => {
                        return Err(TorrentError::MissingField);
                    },
                };
                let local_listen_port = match port {
                    Some(Some(x)) => Some(x),
                    _ => None,
                };
                let metadata_size = match size {
                    Some(Some(x)) => Some(x),
                    _ => None,
                };
                let max_outstanding_requests = match reqq {
                    Some(Some(x)) => Some(x),
                    _ => None,
                };
                let version = match version {
                    Some(Some(t)) => Some(t),
                    _ => None,
                };
                Ok(ExtensionHandshakeMessage {
                    metadata,
                    local_listen_port,
                    metadata_size,
                    max_outstanding_requests,
                    version,
                    your_ip: None,
                    ipv6: None,
                    ipv4: None,
                })
            },
            BencodeValue::List(items) => {
                proof {
                    crate::json::lemma_list_view(items@);
                }
                assert(v@ == BView::List(crate::bencode::list_view(items@)));
                if items.len() < 1 {
                    return Err(TorrentError::InvalidLength);
                }
                let metadata = match ExtensionHandshakeMetaData::from_bencode(&items[0]) {
                    Ok(md) => md,
                    Err(e) => {
                        return Err(e);
                    },
                };
                if items.len() < 2 {
                    return Err(TorrentError::InvalidLength);
                }
                let port = match read_u16(&items[1]) {
                    Some(x) => x,
                    None => {
                        return Err(TorrentError::InvalidField);
                    },
                };
                if items.len() < 3 {
                    return Err(TorrentError::InvalidLength);
                }
                let size = match read_u32(&items[2]) {
                    Some(x) => x,
                    None => {
                        return Err(TorrentError::InvalidField);
                    },
                };
                if items.len() < 4 {
                    return Err(TorrentError::InvalidLength);
                }
                let reqq = match read_u32(&items[3]) {
                    Some(x) => x,
                    None => {
                        return Err(TorrentError::InvalidField);
                    },
                };
                if items.len() < 5 {
                    return Err(TorrentError::InvalidLength);
                }
                let version = match read_text(&items[4]) {
                    Some(x) => x,
                    None => {
                        return Err(TorrentError::InvalidField);
                    },
                };
                Ok(ExtensionHandshakeMessage {
                    metadata,
                    local_listen_port: Some(port),
                    metadata_size: Some(size),
                    max_outstanding_requests: Some(reqq),
                    version: Some(version),
                    your_ip: None,
                    ipv6: None,
                    ipv4: None,
                })
            },
            _ => Err(TorrentError::InvalidField),
        }
    }

    /// The bencode dictionary of this handshake.
    pub fn to_bencode(&self) -> (res: BencodeValue)
        ensures
            res@ == handshake_bview(self@),
    {
        let mut e: Vec<(Vec<u8>, BencodeValue)> = Vec::new();
        let ghost m0 = Map::<Seq<u8>, BView>::empty().insert(key_m(), metadata_bview(self.metadata));
        let first = (vec![109u8], self.metadata.to_bencode());
        proof {
            lemma_entries_view_push(e@, first);
            assert(first.0@ =~= key_m());
            assert(entries_view(e@) =~= Map::empty());
        }
        e.push(first);
        assert(entries_view(e@) == m0);
        let ghost m1 = opt_insert(m0, key_p(), opt_int(opt_u16_int(self.local_listen_port)));
        match self.local_listen_port {
            Some(x) => {
                let next = (vec![112u8], BencodeValue::Int(x as i64));
                proof {
                    lemma_entries_view_push(e@, next);
                    assert(next.0@ =~= key_p());
                }
                e.push(next);
            },
            None => {},
        }
        assert(entries_view(e@) == m1);
        let ghost m2 = opt_insert(m1, key_metadata_size(), opt_int(opt_u32_int(self.metadata_size)));
        match self.metadata_size {
            Some(x) => {
                let next = (vec![109u8, 101, 116, 97, 100, 97, 116, 97, 95, 115, 105, 122, 101], BencodeValue::Int(x as i64));
                proof {
                    lemma_entries_view_push(e@, next);
                    assert(next.0@ =~= key_metadata_size());
                }
                e.push(next);
            },
            None => {},
        }
        assert(entries_view(e@) == m2);
        let ghost m3 = opt_insert(m2, key_reqq(), opt_int(opt_u32_int(self.max_outstanding_requests)));
        match self.max_outstanding_requests {
            Some(x) => {
                let next = (vec![114u8, 101, 113, 113], BencodeValue::Int(x as i64));
                proof {
                    lemma_entries_view_push(e@, next);
                    assert(next.0@ =~= key_reqq());
                }
                e.push(next);
            },
            None => {},
        }
        assert(entries_view(e@) == m3);
        match &self.version {
            Some(t) => {
                let next = (vec![118u8], BencodeValue::Bytes(vstd::slice::slice_to_vec(t.as_str().as_bytes())));
                proof {
                    lemma_entries_view_push(e@, next);
                    assert(next.0@ =~= key_v());
                }
                e.push(next);
            },
            None => {},
        }
        BencodeValue::Dict(e)
    }
}

impl MessageSerialization for ExtensionHandshakeMessage {
    open spec fn serialize_requires(&self) -> bool {
        true
    }

    open spec fn spec_serialize(&self) -> Option<Seq<u8>> {
        Some(crate::bencode::spec_bencode_encode(handshake_bview(self@)))
    }

    open spec fn deserialize_requires(data: Seq<u8>) -> bool {
        true
    }

    /// Bytes that do not start with a bencode value are an error; bytes
    /// after the value are not read.
    open spec fn spec_deserialize(data: Seq<u8>) -> Result<ExtensionHandshakeView, TorrentError> {
        match crate::bencode::spec_bencode_decode(data) {
            None => Err(TorrentError::Bencode),
            Some(v) => spec_handshake_of(v),
        }
    }

    /// Reading the bytes back gives this handshake, without the addresses.
    fn serialize(&self) -> (res: Result<Vec<u8>, TorrentError>)
        ensures
            res matches Ok(b) ==> Self::spec_deserialize(b@) == Ok::<ExtensionHandshakeView, TorrentError>(without_addresses(self@)),
    {
        let b = crate::bencode::encode(&self.to_bencode());
        proof {
            assert(b@ + Seq::<u8>::empty() =~= b@);
            lemma_extension_handshake_roundtrip(self@);
        }
        Ok(b)
    }

    fn deserialize(data: &[u8]) -> (res: Result<Self, TorrentError>) {
        match crate::bencode::decode(data) {
            Ok(v) => ExtensionHandshakeMessage::from_bencode(&v),
            Err(e) => Err(e),
        }
    }
}

// ----------------- METADATA REQUESTS -----------------

/// The key "msg_type".
pub open spec fn key_msg_type() -> Seq<u8> {
    seq![109u8, 115, 103, 95, 116, 121, 112, 101]
}

/// The key "piece".
pub open spec fn key_piece() -> Seq<u8> {
    seq![112u8, 105, 101, 99, 101]
}

/// The key "total_size".
pub open spec fn key_total_size() -> Seq<u8> {
    seq![116u8, 111, 116, 97, 108, 95, 115, 105, 122, 101]
}

/// A field of a JSON object that is present but that `read` refuses.
pub open spec fn jfield_invalid<T>(m: Map<Seq<u8>, JView>, k: Seq<u8>, read: spec_fn(JView) -> Option<T>) -> bool {
    m.dom().contains(k) && read(m[k]) is None
}

/// What reading the three numbers of a metadata message from JSON gives:
/// the message type (a byte), the piece and the total size. An object needs
/// all three (other keys are not read); a present number that does not fit
/// is an invalid field, and that comes before a missing one. An array must
/// hold exactly the three numbers in order.
pub open spec fn spec_request_header_of(j: JView) -> Result<(u8, u32, u32), TorrentError> {
    match j {
        JView::Object(m) => if jfield_invalid(m, key_msg_type(), |x: JView| ju8(x))
            || jfield_invalid(m, key_piece(), |x: JView| ju32(x))
            || jfield_invalid(m, key_total_size(), |x: JView| ju32(x)) {
            Err(TorrentError::InvalidField)
        } else if !(m.dom().contains(key_msg_type()) && m.dom().contains(key_piece()) && m.dom().contains(key_total_size())) {
            Err(TorrentError::MissingField)
        } else {
            Ok((ju8(m[key_msg_type()]).unwrap(), ju32(m[key_piece()]).unwrap(), ju32(m[key_total_size()]).unwrap()))
        },
        JView::Array(items) => if items.len() < 1 {
            Err(TorrentError::InvalidLength)
        } else if ju8(items[0]) is None {
            Err(TorrentError::InvalidField)
        } else if items.len() < 2 {
            Err(TorrentError::InvalidLength)
        } else if ju32(items[1]) is None {
            Err(TorrentError::InvalidField)
        } else if items.len() < 3 {
            Err(TorrentError::InvalidLength)
        } else if ju32(items[2]) is None {
            Err(TorrentError::InvalidField)
        } else if items.len() > 3 {
            Err(TorrentError::InvalidLength)
        } else {
            Ok((ju8(items[0]).unwrap(), ju32(items[1]).unwrap(), ju32(items[2]).unwrap()))
        },
        _ => Err(TorrentError::InvalidField),
    }
}

/// Reads the three numbers of a metadata message from JSON.
pub fn request_header_from_json(j: &JsonValue) -> (res: Result<(u8, u32, u32), TorrentError>)
    ensures
        res == spec_request_header_of(j@),
{
    match j {
        JsonValue::Object(entries) => {
            let ghost m = crate::json::jentries_view(entries@);
            assert(j@ == JView::Object(m));
            let k_type: [u8; 8] = [109, 115, 103, 95, 116, 121, 112, 101];
            let k_piece: [u8; 5] = [112, 105, 101, 99, 101];
            let k_total: [u8; 10] = [116, 111, 116, 97, 108, 95, 115, 105, 122, 101];
            assert(k_type@ =~= key_msg_type());
            assert(k_piece@ =~= key_piece());
            assert(k_total@ =~= key_total_size());
            let msg_type: Option<Option<u8>> = match json_get(entries, vstd::array::array_as_slice(&k_type)) {
                Some(x) => Some(json_u8(x)),
                None => None,
            };
            let piece: Option<Option<u32>> = match json_get(entries, vstd::array::array_as_slice(&k_piece)) {
                Some(x) => Some(json_u32(x)),
                None => None,
            };
            let total: Option<Option<u32>> = match json_get(entries, vstd::array::array_as_slice(&k_total)) {
                Some(x) => Some(json_u32(x)),
                None => None,
            };
            if (msg_type.is_some() && msg_type.unwrap().is_none()) || (piece.is_some() && piece.unwrap().is_none())
                || (total.is_some() && total.unwrap().is_none()) {
                return Err(TorrentError::InvalidField);
            }
            match (msg_type, piece, total) {
                (Some(Some(t)), Some(Some(p)), Some(Some(n))) => Ok((t, p, n)),
                _ => Err(TorrentError::MissingField),
            }
        },
        JsonValue::Array(items) => {
            proof {
                crate::json::lemma_jlist_view(items@);
            }
            assert(j@ == JView::Array(crate::json::jlist_view(items@)));
            if items.len() < 1 {
                return Err(TorrentError::InvalidLength);
            }
            let t = match json_u8(&items[0]) {
                Some(x) => x,
                None => {
                    return Err(TorrentError::InvalidField);
                },
            };
            if items.len() < 2 {
                return Err(TorrentError::InvalidLength);
            }
            let p = match json_u32(&items[1]) {
                Some(x) => x,
                None => {
                    return Err(TorrentError::InvalidField);
                },
            };
            if items.len() < 3 {
                return Err(TorrentError::InvalidLength);
            }
            let n = match json_u32(&items[2]) {
                Some(x) => x,
                None => {
                    return Err(TorrentError::InvalidField);
                },
            };
            if items.len() > 3 {
                return Err(TorrentError::InvalidLength);
            }
            Ok((t, p, n))
        },
        _ => Err(TorrentError::InvalidField),
    }
}

/// The bencode dictionary of the three numbers of a metadata message.
pub open spec fn request_header_bview(msg_type: u8, piece: u32, total_size: u32) -> BView {
    BView::Dict(Map::empty().insert(key_msg_type(), BView::Int(msg_type as int))
        .insert(key_piece(), BView::Int(piece as int))
        .insert(key_total_size(), BView::Int(total_size as int)))
}

/// The bencode dictionary of the three numbers of a metadata message.
pub fn request_header_to_bencode(msg_type: u8, piece: u32, total_size: u32) -> (res: BencodeValue)
    ensures
        res@ == request_header_bview(msg_type, piece, total_size),
{
    let e = vec![
        (vec![109u8, 115, 103, 95, 116, 121, 112, 101], BencodeValue::Int(msg_type as i64)),
        (vec![112u8, 105, 101, 99, 101], BencodeValue::Int(piece as i64)),
        (vec![116u8, 111, 116, 97, 108, 95, 115, 105, 122, 101], BencodeValue::Int(total_size as i64)),
    ];
    proof {
        reveal_with_fuel(entries_view, 4);
        assert(e@[0].0@ =~= key_msg_type());
        assert(e@[1].0@ =~= key_piece());
        assert(e@[2].0@ =~= key_total_size());
        assert(e@.drop_last().drop_last().drop_last() =~= Seq::<(Vec<u8>, BencodeValue)>::empty());
        assert(entries_view(e@) =~= Map::empty().insert(key_msg_type(), BView::Int(msg_type as int))
            .insert(key_piece(), BView::Int(piece as int))
            .insert(key_total_size(), BView::Int(total_size as int)));
    }
    BencodeValue::Dict(e)
}

/// The three numbers of a metadata message, converted to JSON, read back
/// as the same numbers.
pub proof fn lemma_request_header_roundtrip(msg_type: u8, piece: u32, total_size: u32)
    ensures
        spec_convert(request_header_bview(msg_type, piece, total_size)) matches Some(j)
            && spec_request_header_of(j) == Ok::<(u8, u32, u32), TorrentError>((msg_type, piece, total_size)),
{
    lemma_ascii_valid_utf8(key_msg_type());
    lemma_ascii_valid_utf8(key_piece());
    lemma_ascii_valid_utf8(key_total_size());
    assert(key_msg_type() != key_piece()) by {
        assert(key_msg_type().len() != key_piece().len());
    }
    assert(key_msg_type() != key_total_size()) by {
        assert(key_msg_type().len() != key_total_size().len());
    }
    assert(key_piece() != key_total_size()) by {
        assert(key_piece().len() != key_total_size().len());
    }
    let m = Map::empty().insert(key_msg_type(), BView::Int(msg_type as int))
        .insert(key_piece(), BView::Int(piece as int))
        .insert(key_total_size(), BView::Int(total_size as int));
    assert(m.dom() =~= set![key_msg_type(), key_piece(), key_total_size()]);
    crate::json::lemma_convert_dict(m);
    assert forall|k: Seq<u8>| m.dom().contains(k) implies valid_utf8(k) && #[trigger] spec_convert(m[k]) is Some by {
        assert(k == key_msg_type() || k == key_piece() || k == key_total_size());
    }
}

/// A metadata message as a value.
pub ghost struct ExtensionPieceRequestView {
    pub msg_type: u8,
    pub piece: u32,
    pub total_size: u32,
    pub torrent_info: Option<TorrentInfoView>,
}

/// A message of the metadata extension: its type, the metadata piece it is
/// about and the metadata's total size; a data message carries the info
/// dictionary after its own bencode dictionary.
#[derive(Debug, Clone)]
pub struct ExtensionPieceRequestMessage {
    pub msg_type: u8,
    pub piece: u32,
    pub total_size: u32,
    pub torrent_info: Option<TorrentInfo>,
}

impl View for ExtensionPieceRequestMessage {
    type V = ExtensionPieceRequestView;

    open spec fn view(&self) -> ExtensionPieceRequestView {
        ExtensionPieceRequestView {
            msg_type: self.msg_type,
            piece: self.piece,
            total_size: self.total_size,
            torrent_info: match self.torrent_info {
                Some(i) => Some(i@),
                None => None,
            },
        }
    }
}

/// The bencode bytes of an info dictionary, if there is one; none else.
pub open spec fn info_bytes(info: Option<TorrentInfoView>) -> Seq<u8> {
    match info {
        Some(i) => crate::bencode::spec_bencode_encode(info_bview(i)),
        None => Seq::empty(),
    }
}

/// An info dictionary whose numbers fit bencode's signed 64-bit integers.
pub open spec fn info_fits(info: Option<TorrentInfoView>) -> bool {
    info matches Some(i) ==> i.piece_length <= i64::MAX && i.length <= i64::MAX
}

/// The total size that a metadata message announces for `n` bytes of info
/// dictionary: their count, cut to 32 bits.
pub open spec fn announced_total(n: nat) -> u32 {
    (n % 0x1_0000_0000) as u32
}

/// The numbers of a metadata message, read from the JSON form of the bencode
/// value at the front of `data`.
pub open spec fn request_header_of_bytes(data: Seq<u8>) -> Result<(u8, u32, u32), TorrentError> {
    match spec_convert(crate::bencode::spec_bencode_decode(data).unwrap()) {
        None => Err(TorrentError::InvalidUtf8),
        Some(j) => spec_request_header_of(j),
    }
}

/// The last `n` bytes of `data`.
pub open spec fn last_bytes(data: Seq<u8>, n: nat) -> Seq<u8> {
    data.subrange(data.len() - n, data.len() as int)
}

impl ExtensionPieceRequestMessage {
    /// A request for the first piece of the metadata.
    pub fn default() -> (res: Self)
        ensures
            res@ == (ExtensionPieceRequestView { msg_type: 0, piece: 0, total_size: 0, torrent_info: None }),
    {
        ExtensionPieceRequestMessage { msg_type: 0, piece: 0, total_size: 0, torrent_info: None }
    }

    /// The info dictionary that a data message carries.
    pub fn torrent_info(&self) -> (res: &TorrentInfo)
        requires
            self@.torrent_info is Some,
        ensures
            Some(res@) == self@.torrent_info,
    {
        self.torrent_info.as_ref().unwrap()
    }
}

impl MessageSerialization for ExtensionPieceRequestMessage {
    open spec fn serialize_requires(&self) -> bool {
        info_fits(self@.torrent_info)
    }

    /// The bencode dictionary of the numbers, with the total size replaced
    /// by the size of the info dictionary's bytes, then those bytes.
    open spec fn spec_serialize(&self) -> Option<Seq<u8>> {
        let info = info_bytes(self@.torrent_info);
        Some(crate::bencode::spec_bencode_encode(request_header_bview(self@.msg_type, self@.piece, announced_total(info.len())))
            + info)
    }

    /// The bytes must start with a bencode value, and the total size that it
    /// announces must not exceed them.
    open spec fn deserialize_requires(data: Seq<u8>) -> bool {
        &&& crate::bencode::spec_bencode_decode(data) is Some
        &&& (request_header_of_bytes(data) matches Ok((_, _, total)) ==> total <= data.len())
    }

    /// The numbers come from the JSON form of the bencode value at the front
    /// of the bytes (a byte string that is not UTF-8, at any depth, is an
    /// error). A nonzero total size announces an info dictionary in that
    /// many bytes at the end.
    open spec fn spec_deserialize(data: Seq<u8>) -> Result<ExtensionPieceRequestView, TorrentError> {
        match request_header_of_bytes(data) {
            Err(e) => Err(e),
            Ok((t, p, total)) => if total == 0 {
                Ok(ExtensionPieceRequestView { msg_type: t, piece: p, total_size: total, torrent_info: None })
            } else {
                match crate::bencode::spec_bencode_decode(last_bytes(data, total as nat)) {
                    None => Err(TorrentError::Bencode),
                    Some(iv) => match spec_info_of(iv) {
                        Err(e) => Err(e),
                        Ok(i) => Ok(ExtensionPieceRequestView { msg_type: t, piece: p, total_size: total, torrent_info: Some(i) }),
                    },
                }
            },
        }
    }

    /// Reading the bytes back gives the same message, with the total size
    /// of its info dictionary's bytes, where that size fits 32 bits.
    fn serialize(&self) -> (res: Result<Vec<u8>, TorrentError>)
        ensures
            res matches Ok(b) ==> (info_bytes(self@.torrent_info).len() < 0x1_0000_0000 ==> (
                Self::deserialize_requires(b@)
                && Self::spec_deserialize(b@) == Ok::<ExtensionPieceRequestView, TorrentError>(ExtensionPieceRequestView {
                    msg_type: self@.msg_type,
                    piece: self@.piece,
                    total_size: info_bytes(self@.torrent_info).len() as u32,
                    torrent_info: self@.torrent_info,
                }))),
    {
        let info: Vec<u8> = match &self.torrent_info {
            Some(i) => crate::bencode::encode(&i.to_bencode()),
            None => Vec::new(),
        };
        assert(info@ == info_bytes(self@.torrent_info));
        let total: u32 = ((info.len() as u64) % 0x1_0000_0000) as u32;
        let header = crate::bencode::encode(&request_header_to_bencode(self.msg_type, self.piece, total));
        let mut out: Vec<u8> = Vec::new();
        append_bytes(&mut out, header.as_slice());
        append_bytes(&mut out, info.as_slice());
        proof {
            if info@.len() < 0x1_0000_0000 {
                lemma_request_header_roundtrip(self.msg_type, self.piece, total);
                assert(crate::bencode::spec_bencode_decode(header@ + info@) == Some(request_header_bview(self.msg_type, self.piece, total)));
                assert(last_bytes(out@, total as nat) =~= info@);
                if self.torrent_info is Some {
                    let i = self.torrent_info.unwrap();
                    assert(info@ + Seq::<u8>::empty() =~= info@);
                    lemma_info_roundtrip(i@);
                }
            }
        }
        Ok(out)
    }

    fn deserialize(data: &[u8]) -> (res: Result<Self, TorrentError>) {
        let j = match crate::json::decode_json(data) {
            Ok(j) => j,
            Err(e) => {
                return Err(e);
            },
        };
        let (msg_type, piece, total_size) = match request_header_from_json(&j) {
            Ok(h) => h,
            Err(e) => {
                return Err(e);
            },
        };
        if total_size == 0 {
            return Ok(ExtensionPieceRequestMessage { msg_type, piece, total_size, torrent_info: None });
        }
        let tail = vstd::slice::slice_subrange(data, data.len() - total_size as usize, data.len());
        let v = match crate::bencode::decode(tail) {
            Ok(v) => v,
            Err(e) => {
                return Err(e);
            },
        };
        match TorrentInfo::from_bencode(&v) {
            Ok(info) => Ok(ExtensionPieceRequestMessage { msg_type, piece, total_size, torrent_info: Some(info) }),
            Err(e) => Err(e),
        }
    }
}

} // verus!
