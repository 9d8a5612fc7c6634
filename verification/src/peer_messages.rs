//! Peer wire messages as the frame codec reads them: tags (with a catch-all
//! for unknown ones), the handshake, length-prefixed frames and payloads.

use vstd::prelude::*;
use crate::types::{TorrentError, HashId, PeerId};
use crate::wire::{array_of, lemma_array_of, append_bytes, be_bytes, be_value, lemma_be_roundtrip, take_array, u32_from_be, u32_to_be};
use crate::bencode::{entries_view, lemma_entries_view_push, opt_insert, opt_int, spec_bencode_decode, spec_bencode_encode, BView, BencodeValue};
use crate::json::{json_get, json_u32, json_u8, ju32, ju8, spec_convert, JView, JsonValue};
use crate::messages::{
    announced_total, info_bytes, info_fits, jfield_invalid, key_m, key_metadata_size, key_ut_metadata, key_ut_pex,
    last_bytes, lemma_request_header_roundtrip, opt_u32_int, opt_u8_int, request_header_bview, request_header_from_json,
    request_header_of_bytes, request_header_to_bencode, ExtensionPieceRequestView,
};
use crate::text::lemma_ascii_valid_utf8;
use crate::torrent::{lemma_info_roundtrip, spec_info_of, TorrentInfo};
use vstd::utf8::{encode_utf8, valid_utf8};

verus! {

// ----------------- TRAIT -----------------

/// A value with a byte encoding on the peer wire.
///
/// `spec_serialize` is what `serialize` produces (`None` where it fails) and
/// `spec_deserialize` is what `deserialize` gives back for some bytes.
pub trait MessageSerialization: Sized + View {
    /// The inputs on which `serialize` runs to completion.
    spec fn serialize_requires(&self) -> bool;

    /// The bytes of this value, or `None` where serializing fails.
    spec fn spec_serialize(&self) -> Option<Seq<u8>>;

    /// The inputs on which `deserialize` runs to completion.
    spec fn deserialize_requires(data: Seq<u8>) -> bool;

    /// The value that some bytes stand for, or the error that reading them gives.
    spec fn spec_deserialize(data: Seq<u8>) -> Result<Self::V, TorrentError>;

    fn serialize(&self) -> (res: Result<Vec<u8>, TorrentError>)
        requires
            self.serialize_requires(),
        ensures
            match res {
                Ok(bytes) => self.spec_serialize() == Some(bytes@),
                Err(_) => self.spec_serialize() is None,
            },
    ;

    fn deserialize(data: &[u8]) -> (res: Result<Self, TorrentError>)
        requires
            Self::deserialize_requires(data@),
        ensures
            match res {
                Ok(v) => Self::spec_deserialize(data@) == Ok::<Self::V, TorrentError>(v@),
                Err(e) => Self::spec_deserialize(data@) == Err::<Self::V, TorrentError>(e),
            },
    ;
}

// ----------------- MESSAGE TAGS -----------------

/// The kind of a peer message, carried in the byte after the length prefix.
#[derive(Debug, Clone, Copy, PartialEq, Eq, Structural)]
pub enum MessageTag {
    Choke,
    Unchoke,
    Interested,
    NotInterested,
    Have,
    Bitfield,
    Request,
    Piece,
    Cancel,
    Extension,
    UNKNOWN,
}

/// The byte that stands for a tag on the wire.
pub open spec fn tag_byte(tag: MessageTag) -> u8 {
    match tag {
        MessageTag::Choke => 0,
        MessageTag::Unchoke => 1,
        MessageTag::Interested => 2,
        MessageTag::NotInterested => 3,
        MessageTag::Have => 4,
        MessageTag::Bitfield => 5,
        MessageTag::Request => 6,
        MessageTag::Piece => 7,
        MessageTag::Cancel => 8,
        MessageTag::Extension => 20,
        MessageTag::UNKNOWN => 255,
    }
}

/// The tag that a byte stands for, if any.
pub open spec fn tag_of_byte(b: u8) -> Option<MessageTag> {
    if b == 0 { Some(MessageTag::Choke) }
    else if b == 1 { Some(MessageTag::Unchoke) }
    else if b == 2 { Some(MessageTag::Interested) }
    else if b == 3 { Some(MessageTag::NotInterested) }
    else if b == 4 { Some(MessageTag::Have) }
    else if b == 5 { Some(MessageTag::Bitfield) }
    else if b == 6 { Some(MessageTag::Request) }
    else if b == 7 { Some(MessageTag::Piece) }
    else if b == 8 { Some(MessageTag::Cancel) }
    else if b == 20 { Some(MessageTag::Extension) }
    else { None }
}

/// What `MessageTag::from_u8` gives for a byte: an unknown byte reads as
/// `UNKNOWN`.
pub open spec fn spec_tag_from_u8(b: u8) -> Result<MessageTag, TorrentError> {
    match tag_of_byte(b) {
        Some(t) => Ok(t),
        None => Ok(MessageTag::UNKNOWN),
    }
}

impl MessageTag {
    /// The tag that a byte stands for; an unknown byte reads as `UNKNOWN`.
    pub fn from_u8(tag: u8) -> (res: Result<Self, TorrentError>)
        ensures
            res == spec_tag_from_u8(tag),
    {
        match tag {
            0 => Ok(MessageTag::Choke),
            1 => Ok(MessageTag::Unchoke),
            2 => Ok(MessageTag::Interested),
            3 => Ok(MessageTag::NotInterested),
            4 => Ok(MessageTag::Have),
            5 => Ok(MessageTag::Bitfield),
            6 => Ok(MessageTag::Request),
            7 => Ok(MessageTag::Piece),
            8 => Ok(MessageTag::Cancel),
            20 => Ok(MessageTag::Extension),
            _ => Ok(MessageTag::UNKNOWN),
        }
    }

    /// The byte that stands for this tag on the wire.
    pub fn to_u8(&self) -> (res: u8)
        ensures
            res == tag_byte(*self),
    {
        match self {
            MessageTag::Choke => 0,
            MessageTag::Unchoke => 1,
            MessageTag::Interested => 2,
            MessageTag::NotInterested => 3,
            MessageTag::Have => 4,
            MessageTag::Bitfield => 5,
            MessageTag::Request => 6,
            MessageTag::Piece => 7,
            MessageTag::Cancel => 8,
            MessageTag::Extension => 20,
            MessageTag::UNKNOWN => 255,
        }
    }
}

/// Each tag's byte is its BitTorrent message id, and each id reads as its
/// tag; any other byte is no known tag.
pub proof fn lemma_tag_ids()
    ensures
        tag_byte(MessageTag::Choke) == 0,
        tag_byte(MessageTag::Unchoke) == 1,
        tag_byte(MessageTag::Interested) == 2,
        tag_byte(MessageTag::NotInterested) == 3,
        tag_byte(MessageTag::Have) == 4,
        tag_byte(MessageTag::Bitfield) == 5,
        tag_byte(MessageTag::Request) == 6,
        tag_byte(MessageTag::Piece) == 7,
        tag_byte(MessageTag::Cancel) == 8,
        tag_byte(MessageTag::Extension) == 20,
        tag_byte(MessageTag::UNKNOWN) == 255,
        tag_of_byte(0) == Some(MessageTag::Choke),
        tag_of_byte(1) == Some(MessageTag::Unchoke),
        tag_of_byte(2) == Some(MessageTag::Interested),
        tag_of_byte(3) == Some(MessageTag::NotInterested),
        tag_of_byte(4) == Some(MessageTag::Have),
        tag_of_byte(5) == Some(MessageTag::Bitfield),
        tag_of_byte(6) == Some(MessageTag::Request),
        tag_of_byte(7) == Some(MessageTag::Piece),
        tag_of_byte(8) == Some(MessageTag::Cancel),
        tag_of_byte(20) == Some(MessageTag::Extension),
        forall|b: u8| !(b <= 8 || b == 20) ==> tag_of_byte(b) is None,
{
}

/// Reading back the byte of a tag gives the tag.
pub proof fn lemma_tag_roundtrip(tag: MessageTag)
    ensures
        spec_tag_from_u8(tag_byte(tag)) == Ok::<MessageTag, TorrentError>(tag),
{
}

/// Reading a tag byte never fails.
pub proof fn lemma_tag_from_u8_total(b: u8)
    ensures
        spec_tag_from_u8(b) is Ok,
        tag_of_byte(b) is None ==> spec_tag_from_u8(b) == Ok::<MessageTag, TorrentError>(MessageTag::UNKNOWN),
{
}


// ----------------- HANDSHAKE -----------------

/// The first message on a connection: protocol name, capability bits,
/// the torrent's info hash and the sender's peer id.
#[derive(Debug, Clone, Copy, PartialEq, Eq)]
pub struct PeerHandshake {
    pub protocol_length: u8,
    pub protocol: [u8; 19],
    pub reserved: [u8; 8],
    pub info_hash: HashId,
    pub peer_id: PeerId,
}

impl View for PeerHandshake {
    type V = PeerHandshake;

    open spec fn view(&self) -> PeerHandshake {
        *self
    }
}

/// The bytes of the protocol name "BitTorrent protocol".
pub open spec fn protocol_name() -> Seq<u8> {
    seq![66u8, 105, 116, 84, 111, 114, 114, 101, 110, 116, 32, 112, 114, 111, 116, 111, 99, 111, 108]
}

/// The reserved bytes that announce support for the extension protocol
/// (bit 20 counted from the least significant end).
pub open spec fn extension_reserved() -> Seq<u8> {
    seq![0u8, 0, 0, 0, 0, 16, 0, 0]
}

/// The number of bytes of a handshake on the wire.
pub const HANDSHAKE_LENGTH: usize = 68;

/// The wire bytes of a handshake: each field in order, with no padding.
pub open spec fn handshake_bytes(h: PeerHandshake) -> Seq<u8> {
    seq![h.protocol_length] + h.protocol@ + h.reserved@ + h.info_hash.0@ + h.peer_id@
}

/// The handshake that the first 68 bytes of `data` stand for.
pub open spec fn handshake_of_bytes(data: Seq<u8>) -> PeerHandshake {
    PeerHandshake {
        protocol_length: data[0],
        protocol: array_of::<19>(data.subrange(1, 20)),
        reserved: array_of::<8>(data.subrange(20, 28)),
        info_hash: HashId(array_of::<20>(data.subrange(28, 48))),
        peer_id: array_of::<20>(data.subrange(48, 68)),
    }
}

impl PeerHandshake {
    /// A handshake for the given info hash and peer id (zeros and this
    /// client's id where they are absent), with no extension bits.
    pub fn default(info_hash: Option<HashId>, peer_id: Option<PeerId>) -> (res: Self)
        ensures
            res.protocol_length == 19,
            res.protocol@ == protocol_name(),
            res.reserved@ == Seq::new(8, |i: int| 0u8),
            res.info_hash == match info_hash {
                Some(h) => h,
                None => crate::types::zero_hash(),
            },
            res.peer_id == match peer_id {
                Some(p) => p,
                None => *crate::PEER_ID,
            },
            res == Self::default_spec(info_hash, peer_id),
    {
        let info_hash = match info_hash {
            Some(h) => h,
            None => HashId::default(),
        };
        let peer_id = match peer_id {
            Some(p) => p,
            None => *crate::PEER_ID,
        };
        let res = PeerHandshake {
            protocol_length: 19,
            protocol: [66, 105, 116, 84, 111, 114, 114, 101, 110, 116, 32, 112, 114, 111, 116, 111, 99, 111, 108],
            reserved: [0; 8],
            info_hash,
            peer_id,
        };
        proof {
            broadcast use vstd::array::group_array_axioms;
            assert(res.protocol@ =~= protocol_name());
            assert(res.reserved@ =~= Seq::new(8, |i: int| 0u8));
            lemma_array_of::<19>(res.protocol);
            lemma_array_of::<8>(res.reserved);
        }
        res
    }

    /// Like `default`, and with the extension bit set in the reserved bytes
    /// when `extension` holds.
    pub fn new(info_hash: Option<HashId>, peer_id: Option<PeerId>, extension: bool) -> (res: Self)
        ensures
            res == (PeerHandshake {
                reserved: if extension {
                    array_of::<8>(extension_reserved())
                } else {
                    array_of::<8>(Seq::new(8, |i: int| 0u8))
                },
                ..PeerHandshake::default_spec(info_hash, peer_id)
            }),
            extension ==> res.reserved@ == extension_reserved(),
            extension ==> res.reserved@ == seq![0u8, 0, 0, 0, 0, 16, 0, 0],
            !extension ==> res.reserved@ == Seq::new(8, |i: int| 0u8),
    {
        let mut handshake = Self::default(info_hash, peer_id);
        if extension {
            handshake.reserved = [0, 0, 0, 0, 0, 16, 0, 0];
            proof {
                assert(handshake.reserved@ =~= extension_reserved());
                lemma_array_of::<8>(handshake.reserved);
            }
        }
        handshake
    }

    /// The handshake that `default` builds.
    pub open spec fn default_spec(info_hash: Option<HashId>, peer_id: Option<PeerId>) -> PeerHandshake {
        PeerHandshake {
            protocol_length: 19,
            protocol: array_of::<19>(protocol_name()),
            reserved: array_of::<8>(Seq::new(8, |i: int| 0u8)),
            info_hash: match info_hash {
                Some(h) => h,
                None => crate::types::zero_hash(),
            },
            peer_id: match peer_id {
                Some(p) => p,
                None => *crate::PEER_ID,
            },
        }
    }
}

impl MessageSerialization for PeerHandshake {
    open spec fn serialize_requires(&self) -> bool {
        true
    }

    open spec fn spec_serialize(&self) -> Option<Seq<u8>> {
        Some(handshake_bytes(*self))
    }

    open spec fn deserialize_requires(data: Seq<u8>) -> bool {
        true
    }

    /// Any size other than 68 bytes is an error.
    open spec fn spec_deserialize(data: Seq<u8>) -> Result<PeerHandshake, TorrentError> {
        if data.len() != 68 {
            Err(TorrentError::InvalidHandshakeSize(data.len() as usize))
        } else {
            Ok(handshake_of_bytes(data))
        }
    }

    fn serialize(&self) -> (res: Result<Vec<u8>, TorrentError>) {
        let mut out: Vec<u8> = Vec::new();
        out.push(self.protocol_length);
        append_bytes(&mut out, vstd::array::array_as_slice(&self.protocol));
        append_bytes(&mut out, vstd::array::array_as_slice(&self.reserved));
        append_bytes(&mut out, vstd::array::array_as_slice(&self.info_hash.0));
        append_bytes(&mut out, vstd::array::array_as_slice(&self.peer_id));
        assert(out@ =~= handshake_bytes(*self));
        Ok(out)
    }

    fn deserialize(data: &[u8]) -> (res: Result<Self, TorrentError>) {
        if data.len() != HANDSHAKE_LENGTH {
            return Err(TorrentError::InvalidHandshakeSize(data.len()));
        }
        let protocol: [u8; 19] = take_array(data, 1);
        let reserved: [u8; 8] = take_array(data, 20);
        let info_hash: [u8; 20] = take_array(data, 28);
        let peer_id: [u8; 20] = take_array(data, 48);
        let res = PeerHandshake {
            protocol_length: data[0],
            protocol,
            reserved,
            info_hash: HashId(info_hash),
            peer_id,
        };
        proof {
            lemma_array_of::<19>(protocol);
            lemma_array_of::<8>(reserved);
            lemma_array_of::<20>(info_hash);
            lemma_array_of::<20>(peer_id);
        }
        Ok(res)
    }
}


/// The handshake's wire layout: the protocol name's length at byte 0, the
/// name at 1..20, the reserved bytes at 20..28, the info hash at 28..48 and
/// the peer id at 48..68; reading a handshake takes each field from the same
/// place.
pub proof fn lemma_handshake_layout(h: PeerHandshake, b: Seq<u8>)
    ensures
        <PeerHandshake as MessageSerialization>::spec_serialize(&h) matches Some(s) && s.len() == 68
            && s[0] == h.protocol_length && s.subrange(1, 20) == h.protocol@ && s.subrange(20, 28) == h.reserved@
            && s.subrange(28, 48) == h.info_hash.0@ && s.subrange(48, 68) == h.peer_id@,
        b.len() == 68 ==> (<PeerHandshake as MessageSerialization>::spec_deserialize(b) matches Ok(r)
            && r.protocol_length == b[0] && r.protocol@ == b.subrange(1, 20) && r.reserved@ == b.subrange(20, 28)
            && r.info_hash.0@ == b.subrange(28, 48) && r.peer_id@ == b.subrange(48, 68)),
{
    let s = handshake_bytes(h);
    assert(s.subrange(1, 20) =~= h.protocol@);
    assert(s.subrange(20, 28) =~= h.reserved@);
    assert(s.subrange(28, 48) =~= h.info_hash.0@);
    assert(s.subrange(48, 68) =~= h.peer_id@);
    if b.len() == 68 {
        crate::wire::lemma_array_of_seq::<19>(b.subrange(1, 20));
        crate::wire::lemma_array_of_seq::<8>(b.subrange(20, 28));
        crate::wire::lemma_array_of_seq::<20>(b.subrange(28, 48));
        crate::wire::lemma_array_of_seq::<20>(b.subrange(48, 68));
    }
}

/// The protocol name is "BitTorrent protocol", and the extension bit is the
/// big-endian bytes of `1 << 20`.
pub proof fn lemma_protocol_constants()
    ensures
        protocol_name() == seq![66u8, 105, 116, 84, 111, 114, 114, 101, 110, 116, 32, 112, 114, 111, 116, 111, 99, 111, 108],
        extension_reserved() == seq![0u8, 0, 0, 0, 0, 16, 0, 0],
        extension_reserved()[5] == ((1u64 << 20u64) >> 16u64) as u8,
{
    assert(((1u64 << 20u64) >> 16u64) as u8 == 16) by (bit_vector);
}

/// A handshake read back from its own bytes is the same handshake.
pub proof fn lemma_handshake_roundtrip(h: PeerHandshake)
    ensures
        handshake_bytes(h).len() == HANDSHAKE_LENGTH,
        <PeerHandshake as MessageSerialization>::spec_deserialize(handshake_bytes(h))
            == Ok::<PeerHandshake, TorrentError>(h),
{
    let b = handshake_bytes(h);
    assert(b.subrange(1, 20) =~= h.protocol@);
    assert(b.subrange(20, 28) =~= h.reserved@);
    assert(b.subrange(28, 48) =~= h.info_hash.0@);
    assert(b.subrange(48, 68) =~= h.peer_id@);
    lemma_array_of::<19>(h.protocol);
    lemma_array_of::<8>(h.reserved);
    lemma_array_of::<20>(h.info_hash.0);
    lemma_array_of::<20>(h.peer_id);
}

// ----------------- PEER MESSAGES -----------------

/// A message after the handshake: a tag and a payload, sent behind a
/// four-byte big-endian length that counts the tag and the payload.
#[derive(Debug, Clone, PartialEq, Eq)]
pub struct PeerMessage<T> where T: MessageSerialization {
    pub message_tag: MessageTag,
    pub message: T,
}

/// A message whose payload is kept as raw bytes.
pub type PeerMessageBuffer = PeerMessage<Vec<u8>>;

/// A message whose payload is an extension payload.
pub type PeerExtMessageBuffer<T> = PeerMessage<ExtensionPayload<T>>;

impl<T: MessageSerialization> View for PeerMessage<T> {
    type V = (MessageTag, T::V);

    open spec fn view(&self) -> (MessageTag, T::V) {
        (self.message_tag, self.message@)
    }
}

/// The length prefix of a frame whose payload has `len` bytes: the payload
/// length, cut to 32 bits, plus one for the tag byte.
pub open spec fn frame_length(len: nat) -> u32 {
    ((len % 0x1_0000_0000) + 1) as u32
}

/// A payload length for which the length prefix does not overflow.
pub open spec fn frame_length_fits(len: nat) -> bool {
    len % 0x1_0000_0000 != 0xFFFF_FFFF
}

/// The bytes of a frame with the given tag and payload bytes.
pub open spec fn frame_bytes(tag: MessageTag, payload: Seq<u8>) -> Seq<u8> {
    be_bytes(frame_length(payload.len())) + seq![tag_byte(tag)] + payload
}

/// The payload length announced by a frame (the length prefix less one).
pub open spec fn announced_payload_length(data: Seq<u8>) -> int {
    be_value(data.subrange(0, 4)) - 1
}

/// The frame bytes on which reading a message runs to completion: a length
/// prefix of at least one, a tag byte, the whole announced payload, and
/// bytes after the tag that the payload type can read.
pub open spec fn frame_deserialize_requires<T: MessageSerialization>(data: Seq<u8>) -> bool {
    &&& data.len() >= 5
    &&& be_value(data.subrange(0, 4)) >= 1
    &&& data.len() - 5 >= announced_payload_length(data)
    &&& T::deserialize_requires(data.subrange(5, data.len() as int))
}

/// What reading a frame gives: the tag, and what the payload type reads
/// from every byte after the tag (bytes past the announced payload too).
pub open spec fn frame_deserialize<T: MessageSerialization>(data: Seq<u8>) -> Result<(MessageTag, T::V), TorrentError> {
    match T::spec_deserialize(data.subrange(5, data.len() as int)) {
        Ok(v) => Ok((spec_tag_from_u8(data[4]).unwrap(), v)),
        Err(e) => Err(e),
    }
}

impl<T> PeerMessage<T> where T: MessageSerialization {
    /// A message with the given tag and payload.
    pub fn new(message_tag: MessageTag, payload: T) -> (res: Self)
        ensures
            res.message_tag == message_tag,
            res.message == payload,
    {
        PeerMessage { message_tag, message: payload }
    }
}

impl PeerMessage<Vec<u8>> {
    /// Reads the raw payload as a `D`, keeping the tag.
    pub fn convert<D>(&self) -> (res: Result<PeerMessage<D>, TorrentError>)
        where D: MessageSerialization,
        requires
            D::deserialize_requires(self.message@),
        ensures
            match res {
                Ok(m) => m.message_tag == self.message_tag
                    && D::spec_deserialize(self.message@) == Ok::<D::V, TorrentError>(m.message@),
                Err(e) => D::spec_deserialize(self.message@) == Err::<D::V, TorrentError>(e),
            },
    {
        let payload = D::deserialize(self.message.as_slice())?;
        Ok(PeerMessage::new(self.message_tag, payload))
    }
}

impl<T> MessageSerialization for PeerMessage<T> where T: MessageSerialization {
    open spec fn serialize_requires(&self) -> bool {
        &&& self.message.serialize_requires()
        &&& (self.message.spec_serialize() matches Some(p) ==> frame_length_fits(p.len()))
    }

    open spec fn spec_serialize(&self) -> Option<Seq<u8>> {
        match self.message.spec_serialize() {
            Some(p) => Some(frame_bytes(self.message_tag, p)),
            None => None,
        }
    }

    open spec fn deserialize_requires(data: Seq<u8>) -> bool {
        frame_deserialize_requires::<T>(data)
    }

    open spec fn spec_deserialize(data: Seq<u8>) -> Result<(MessageTag, T::V), TorrentError> {
        frame_deserialize::<T>(data)
    }

    fn serialize(&self) -> (res: Result<Vec<u8>, TorrentError>) {
        let encoded_payload = self.message.serialize()?;
        let len64: u64 = encoded_payload.len() as u64;
        let payload_size: u32 = ((len64 % 0x1_0000_0000) as u32) + 1;
        let size_bytes = u32_to_be(payload_size);
        let mut buffer: Vec<u8> = Vec::new();
        append_bytes(&mut buffer, vstd::array::array_as_slice(&size_bytes));
        buffer.push(self.message_tag.to_u8());
        append_bytes(&mut buffer, encoded_payload.as_slice());
        assert(buffer@ =~= frame_bytes(self.message_tag, encoded_payload@));
        Ok(buffer)
    }

    fn deserialize(data: &[u8]) -> (res: Result<Self, TorrentError>) {
        let n = u32_from_be(data);
        assert(be_value(data@) == be_value(data@.subrange(0, 4)));
        let length: usize = (n - 1) as usize;
        let message_tag = MessageTag::from_u8(data[4])?;
        let payload = T::deserialize(vstd::slice::slice_subrange(data, 5, data.len()))?;
        Ok(PeerMessage::new(message_tag, payload))
    }
}

// ----------------- EXTENSION PAYLOAD -----------------

/// The payload of an extension message: the extension's message id and
/// the extension's own payload.
#[derive(Debug, Clone, PartialEq, Eq)]
pub struct ExtensionPayload<T> where T: MessageSerialization {
    pub metadata_id: u8,
    pub payload: T,
}

impl<T: MessageSerialization> View for ExtensionPayload<T> {
    type V = (u8, T::V);

    open spec fn view(&self) -> (u8, T::V) {
        (self.metadata_id, self.payload@)
    }
}

impl<T> ExtensionPayload<T> where T: MessageSerialization {
    /// An extension payload with the given message id and payload.
    pub fn new(metadata_id: u8, payload: T) -> (res: Self)
        ensures
            res.metadata_id == metadata_id,
            res.payload == payload,
    {
        ExtensionPayload { metadata_id, payload }
    }

    /// This payload inside a message tagged `Extension`.
    pub fn into_peer_message(self) -> (res: PeerMessage<Self>)
        ensures
            res.message_tag == MessageTag::Extension,
            res.message == self,
    {
        PeerMessage::new(MessageTag::Extension, self)
    }
}

impl<T> MessageSerialization for ExtensionPayload<T> where T: MessageSerialization {
    open spec fn serialize_requires(&self) -> bool {
        self.payload.serialize_requires()
    }

    open spec fn spec_serialize(&self) -> Option<Seq<u8>> {
        match self.payload.spec_serialize() {
            Some(p) => Some(seq![self.metadata_id] + p),
            None => None,
        }
    }

    /// The first byte is read unchecked: the data must not be empty.
    open spec fn deserialize_requires(data: Seq<u8>) -> bool {
        data.len() >= 1 && T::deserialize_requires(data.subrange(1, data.len() as int))
    }

    open spec fn spec_deserialize(data: Seq<u8>) -> Result<(u8, T::V), TorrentError> {
        match T::spec_deserialize(data.subrange(1, data.len() as int)) {
            Ok(v) => Ok((data[0], v)),
            Err(e) => Err(e),
        }
    }

    fn serialize(&self) -> (res: Result<Vec<u8>, TorrentError>) {
        let mut bytes: Vec<u8> = Vec::new();
        bytes.push(self.metadata_id);
        let payload = self.payload.serialize()?;
        append_bytes(&mut bytes, payload.as_slice());
        assert(bytes@ =~= seq![self.metadata_id] + payload@);
        Ok(bytes)
    }

    fn deserialize(data: &[u8]) -> (res: Result<ExtensionPayload<T>, TorrentError>) {
        let rest = vstd::slice::slice_subrange(data, 1, data.len());
        let payload = T::deserialize(rest)?;
        Ok(ExtensionPayload { metadata_id: data[0], payload })
    }
}

// ----------------- RAW PAYLOADS -----------------

impl MessageSerialization for Vec<u8> {
    open spec fn serialize_requires(&self) -> bool {
        true
    }

    open spec fn spec_serialize(&self) -> Option<Seq<u8>> {
        Some(self@)
    }

    open spec fn deserialize_requires(data: Seq<u8>) -> bool {
        true
    }

    open spec fn spec_deserialize(data: Seq<u8>) -> Result<Seq<u8>, TorrentError> {
        Ok(data)
    }

    fn serialize(&self) -> (res: Result<Vec<u8>, TorrentError>) {
        Ok(vstd::slice::slice_to_vec(self.as_slice()))
    }

    fn deserialize(data: &[u8]) -> (res: Result<Self, TorrentError>) {
        Ok(vstd::slice::slice_to_vec(data))
    }
}


/// The bytes of a frame: a length prefix of four big-endian bytes that
/// counts the tag byte and the payload, then the tag's message id, then the
/// payload.
pub proof fn lemma_frame_layout(tag: MessageTag, payload: Seq<u8>)
    requires
        payload.len() < 0xFFFF_FFFF,
    ensures
        frame_bytes(tag, payload).len() == payload.len() + 5,
        frame_bytes(tag, payload).subrange(0, 4) == be_bytes((payload.len() + 1) as u32),
        be_value(frame_bytes(tag, payload).subrange(0, 4)) == payload.len() + 1,
        frame_bytes(tag, payload)[4] == tag_byte(tag),
        frame_bytes(tag, payload).subrange(5, payload.len() + 5int) == payload,
{
    let f = frame_bytes(tag, payload);
    let n = frame_length(payload.len());
    assert(n == payload.len() + 1);
    lemma_be_roundtrip(n);
    assert(f.subrange(0, 4) =~= be_bytes(n));
    assert(f.subrange(5, payload.len() + 5int) =~= payload);
}

/// A frame read back from its own bytes gives the tag and whatever the
/// payload type reads from the payload bytes.
pub proof fn lemma_frame_roundtrip<T: MessageSerialization>(tag: MessageTag, payload: Seq<u8>)
    requires
        payload.len() < 0xFFFF_FFFF,
    ensures
        frame_length_fits(payload.len()),
        T::deserialize_requires(payload) ==> frame_deserialize_requires::<T>(frame_bytes(tag, payload)),
        frame_deserialize::<T>(frame_bytes(tag, payload)) == match T::spec_deserialize(payload) {
            Ok(v) => Ok::<(MessageTag, T::V), TorrentError>((tag, v)),
            Err(e) => Err(e),
        },
{
    let f = frame_bytes(tag, payload);
    let n = frame_length(payload.len());
    lemma_be_roundtrip(n);
    assert(f.subrange(0, 4) =~= be_bytes(n));
    assert(n == payload.len() + 1);
    assert(f[4] == tag_byte(tag));
    lemma_tag_roundtrip(tag);
    assert(f.subrange(5, f.len() as int) =~= payload);
}

/// Reading back the bytes of a message gives back the message wherever its
/// payload reads back from its own bytes.
pub proof fn lemma_peer_message_roundtrip<T: MessageSerialization>(m: PeerMessage<T>)
    requires
        m.message.serialize_requires(),
        m.message.spec_serialize() is Some,
        m.message.spec_serialize().unwrap().len() < 0xFFFF_FFFF,
        T::deserialize_requires(m.message.spec_serialize().unwrap()),
        T::spec_deserialize(m.message.spec_serialize().unwrap()) == Ok::<T::V, TorrentError>(m.message@),
    ensures
        m.serialize_requires(),
        PeerMessage::<T>::deserialize_requires(m.spec_serialize().unwrap()),
        PeerMessage::<T>::spec_deserialize(m.spec_serialize().unwrap()) == Ok::<(MessageTag, T::V), TorrentError>(m@),
{
    lemma_frame_roundtrip::<T>(m.message_tag, m.message.spec_serialize().unwrap());
}

/// Reading back the bytes of a raw payload gives the same bytes.
pub proof fn lemma_raw_payload_roundtrip(v: Vec<u8>)
    ensures
        <Vec<u8> as MessageSerialization>::spec_deserialize(v.spec_serialize().unwrap()) == Ok::<Seq<u8>, TorrentError>(v@),
{
}

/// Reading back the bytes of an extension payload gives back the payload
/// wherever its inner payload reads back from its own bytes.
pub proof fn lemma_extension_payload_roundtrip<T: MessageSerialization>(e: ExtensionPayload<T>)
    requires
        e.payload.spec_serialize() is Some,
        T::deserialize_requires(e.payload.spec_serialize().unwrap()),
        T::spec_deserialize(e.payload.spec_serialize().unwrap()) == Ok::<T::V, TorrentError>(e.payload@),
    ensures
        ExtensionPayload::<T>::deserialize_requires(e.spec_serialize().unwrap()),
        ExtensionPayload::<T>::spec_deserialize(e.spec_serialize().unwrap()) == Ok::<(u8, T::V), TorrentError>(e@),
{
    let p = e.payload.spec_serialize().unwrap();
    let b = seq![e.metadata_id] + p;
    assert(b.subrange(1, b.len() as int) =~= p);
}

// ----------------- PIECE REQUESTS -----------------

/// A request for `length` bytes of piece `index`, starting at `begin`.
/// The numbers are kept in their big-endian wire form.
#[derive(Debug, Clone)]
pub struct PieceRequestMessage {
    index: [u8; 4],
    begin: [u8; 4],
    length: [u8; 4],
}

impl View for PieceRequestMessage {
    type V = (u32, u32, u32);

    /// The piece index, the offset and the length.
    closed spec fn view(&self) -> (u32, u32, u32) {
        (be_value(self.index@) as u32, be_value(self.begin@) as u32, be_value(self.length@) as u32)
    }
}

impl PieceRequestMessage {
    /// The wire bytes of this request are its numbers, big-endian.
    proof fn lemma_wire(&self)
        ensures
            self.index@ + self.begin@ + self.length@ == be_bytes(self@.0) + be_bytes(self@.1) + be_bytes(self@.2),
    {
        crate::wire::lemma_be_value_bytes(self.index@);
        crate::wire::lemma_be_value_bytes(self.begin@);
        crate::wire::lemma_be_value_bytes(self.length@);
    }
}

/// A request whose twelve wire bytes are `b`.
pub open spec fn request_of_bytes(b: Seq<u8>) -> (u32, u32, u32) {
    (be_value(b.subrange(0, 4)) as u32, be_value(b.subrange(4, 8)) as u32, be_value(b.subrange(8, 12)) as u32)
}

impl MessageSerialization for PieceRequestMessage {
    open spec fn serialize_requires(&self) -> bool {
        true
    }

    /// Index, offset and length, big-endian.
    open spec fn spec_serialize(&self) -> Option<Seq<u8>> {
        Some(be_bytes(self@.0) + be_bytes(self@.1) + be_bytes(self@.2))
    }

    open spec fn deserialize_requires(data: Seq<u8>) -> bool {
        true
    }

    /// Fewer than 12 bytes is an error; bytes after the first 12 are not read.
    open spec fn spec_deserialize(data: Seq<u8>) -> Result<(u32, u32, u32), TorrentError> {
        if data.len() < 12 {
            Err(TorrentError::UnexpectedEnd)
        } else {
            Ok(request_of_bytes(data))
        }
    }

    fn serialize(&self) -> (res: Result<Vec<u8>, TorrentError>) {
        let mut out: Vec<u8> = Vec::new();
        append_bytes(&mut out, vstd::array::array_as_slice(&self.index));
        append_bytes(&mut out, vstd::array::array_as_slice(&self.begin));
        append_bytes(&mut out, vstd::array::array_as_slice(&self.length));
        proof {
            self.lemma_wire();
        }
        Ok(out)
    }

    fn deserialize(data: &[u8]) -> (res: Result<Self, TorrentError>) {
        if data.len() < 12 {
            return Err(TorrentError::UnexpectedEnd);
        }
        let res = PieceRequestMessage { index: take_array(data, 0), begin: take_array(data, 4), length: take_array(data, 8) };
        Ok(res)
    }
}

/// The wire bytes of a request: twelve bytes, the piece index at 0..4, the
/// offset at 4..8 and the length at 8..12, each big-endian; reading takes
/// the three numbers from the same places.
pub proof fn lemma_piece_request_layout(r: PieceRequestMessage, b: Seq<u8>)
    ensures
        r.spec_serialize().unwrap().len() == 12,
        be_value(r.spec_serialize().unwrap().subrange(0, 4)) == r@.0,
        be_value(r.spec_serialize().unwrap().subrange(4, 8)) == r@.1,
        be_value(r.spec_serialize().unwrap().subrange(8, 12)) == r@.2,
        b.len() >= 12 ==> PieceRequestMessage::spec_deserialize(b) == Ok::<(u32, u32, u32), TorrentError>((
            be_value(b.subrange(0, 4)) as u32,
            be_value(b.subrange(4, 8)) as u32,
            be_value(b.subrange(8, 12)) as u32,
        )),
{
    let w = r.spec_serialize().unwrap();
    lemma_be_roundtrip(r@.0);
    lemma_be_roundtrip(r@.1);
    lemma_be_roundtrip(r@.2);
    assert(w.subrange(0, 4) =~= be_bytes(r@.0));
    assert(w.subrange(4, 8) =~= be_bytes(r@.1));
    assert(w.subrange(8, 12) =~= be_bytes(r@.2));
}

/// The numbers of a request survive its wire bytes.
pub proof fn lemma_piece_request_roundtrip(r: PieceRequestMessage)
    ensures
        PieceRequestMessage::spec_deserialize(r.spec_serialize().unwrap()) == Ok::<(u32, u32, u32), TorrentError>(r@),
{
    let b = r.spec_serialize().unwrap();
    assert(b.subrange(0, 4) =~= be_bytes(r@.0));
    assert(b.subrange(4, 8) =~= be_bytes(r@.1));
    assert(b.subrange(8, 12) =~= be_bytes(r@.2));
    lemma_be_roundtrip(r@.0);
    lemma_be_roundtrip(r@.1);
    lemma_be_roundtrip(r@.2);
}


// ----------------- EXTENSION HANDSHAKE -----------------

/// The message ids that a peer gives the extensions it supports.
#[derive(Debug, Clone, Copy, PartialEq, Eq, Structural)]
pub struct ExtensionHandshakeMetaData {
    pub ut_metadata: u8,
    pub ut_pex: Option<u8>,
}

/// The bencode dictionary of extension ids; an absent id is left out.
pub open spec fn metadata_bview(md: ExtensionHandshakeMetaData) -> BView {
    BView::Dict(opt_insert(Map::empty().insert(key_ut_metadata(), BView::Int(md.ut_metadata as int)),
        key_ut_pex(), opt_int(opt_u8_int(md.ut_pex))))
}

/// What reading extension ids from JSON gives. An object needs
/// "ut_metadata" ("ut_pex" may be absent; other keys are not read); an id
/// that is not a byte is an invalid field, and that comes before a missing
/// one. An array must hold exactly the two ids in order.
pub open spec fn spec_metadata_of_json(j: JView) -> Result<ExtensionHandshakeMetaData, TorrentError> {
    match j {
        JView::Object(m) => if jfield_invalid(m, key_ut_metadata(), |x: JView| ju8(x))
            || jfield_invalid(m, key_ut_pex(), |x: JView| ju8(x)) {
            Err(TorrentError::InvalidField)
        } else if !m.dom().contains(key_ut_metadata()) {
            Err(TorrentError::MissingField)
        } else {
            Ok(ExtensionHandshakeMetaData {
                ut_metadata: ju8(m[key_ut_metadata()]).unwrap(),
                ut_pex: if m.dom().contains(key_ut_pex()) { ju8(m[key_ut_pex()]) } else { None },
            })
        },
        JView::Array(items) => if items.len() < 1 {
            Err(TorrentError::InvalidLength)
        } else if ju8(items[0]) is None {
            Err(TorrentError::InvalidField)
        } else if items.len() < 2 {
            Err(TorrentError::InvalidLength)
        } else if ju8(items[1]) is None {
            Err(TorrentError::InvalidField)
        } else if items.len() > 2 {
            Err(TorrentError::InvalidLength)
        } else {
            Ok(ExtensionHandshakeMetaData { ut_metadata: ju8(items[0]).unwrap(), ut_pex: ju8(items[1]) })
        },
        _ => Err(TorrentError::InvalidField),
    }
}

impl ExtensionHandshakeMetaData {
    /// Reads extension ids from JSON.
    fn from_json(j: &JsonValue) -> (res: Result<ExtensionHandshakeMetaData, TorrentError>)
        ensures
            res == spec_metadata_of_json(j@),
    {
        match j {
            JsonValue::Object(entries) => {
                let ghost m = crate::json::jentries_view(entries@);
                assert(j@ == JView::Object(m));
                let k_id: [u8; 11] = [117, 116, 95, 109, 101, 116, 97, 100, 97, 116, 97];
                let k_pex: [u8; 6] = [117, 116, 95, 112, 101, 120];
                assert(k_id@ =~= key_ut_metadata());
                assert(k_pex@ =~= key_ut_pex());
                let id: Option<Option<u8>> = match json_get(entries, vstd::array::array_as_slice(&k_id)) {
                    Some(x) => Some(json_u8(x)),
                    None => None,
                };
                let pex: Option<Option<u8>> = match json_get(entries, vstd::array::array_as_slice(&k_pex)) {
                    Some(x) => Some(json_u8(x)),
                    None => None,
                };
                if (id.is_some() && id.unwrap().is_none()) || (pex.is_some() && pex.unwrap().is_none()) {
                    return Err(TorrentError::InvalidField);
                }
                let ut_pex = match pex {
                    Some(Some(x)) => Some(x),
                    _ => None,
                };
                match id {
                    Some(Some(ut_metadata)) => Ok(ExtensionHandshakeMetaData { ut_metadata, ut_pex }),
                    _ => Err(TorrentError::MissingField),
                }
            },
            JsonValue::Array(items) => {
                proof {
                    crate::json::lemma_jlist_view(items@);
                }
                assert(j@ == JView::Array(crate::json::jlist_view(items@)));
                if items.len() < 1 {
                    return Err(TorrentError::InvalidLength);
                }
                let ut_metadata = match json_u8(&items[0]) {
                    Some(x) => x,
                    None => {
                        return Err(TorrentError::InvalidField);
                    },
                };
                if items.len() < 2 {
                    return Err(TorrentError::InvalidLength);
                }
                let ut_pex = match json_u8(&items[1]) {
                    Some(x) => x,
                    None => {
                        return Err(TorrentError::InvalidField);
                    },
                };
                if items.len() > 2 {
                    return Err(TorrentError::InvalidLength);
                }
                Ok(ExtensionHandshakeMetaData { ut_metadata, ut_pex: Some(ut_pex) })
            },
            _ => Err(TorrentError::InvalidField),
        }
    }

    /// The bencode dictionary of these ids.
    fn to_bencode(&self) -> (res: BencodeValue)
        ensures
            res@ == metadata_bview(*self),
    {
        let mut e: Vec<(Vec<u8>, BencodeValue)> = Vec::new();
        let first = (vec![117u8, 116, 95, 109, 101, 116, 97, 100, 97, 116, 97], BencodeValue::Int(self.ut_metadata as i64));
        proof {
            lemma_entries_view_push(e@, first);
            assert(first.0@ =~= key_ut_metadata());
            assert(entries_view(e@) =~= Map::empty());
        }
        e.push(first);
        match self.ut_pex {
            Some(x) => {
                let next = (vec![117u8, 116, 95, 112, 101, 120], BencodeValue::Int(x as i64));
                proof {
                    lemma_entries_view_push(e@, next);
                    assert(next.0@ =~= key_ut_pex());
                }
                e.push(next);
            },
            None => {},
        }
        BencodeValue::Dict(e)
    }
}

/// Extension ids, converted to JSON, read back as the same ids.
pub proof fn lemma_metadata_json_roundtrip(md: ExtensionHandshakeMetaData)
    ensures
        spec_convert(metadata_bview(md)) matches Some(j)
            && spec_metadata_of_json(j) == Ok::<ExtensionHandshakeMetaData, TorrentError>(md),
{
    lemma_ascii_valid_utf8(key_ut_metadata());
    lemma_ascii_valid_utf8(key_ut_pex());
    assert(key_ut_metadata() != key_ut_pex()) by {
        assert(key_ut_metadata().len() != key_ut_pex().len());
    }
    let m = opt_insert(Map::empty().insert(key_ut_metadata(), BView::Int(md.ut_metadata as int)),
        key_ut_pex(), opt_int(opt_u8_int(md.ut_pex)));
    assert(m.dom().finite()) by {
        if md.ut_pex is Some {
            assert(m.dom() =~= set![key_ut_metadata(), key_ut_pex()]);
        } else {
            assert(m.dom() =~= set![key_ut_metadata()]);
        }
    }
    crate::json::lemma_convert_dict(m);
    assert forall|k: Seq<u8>| m.dom().contains(k) implies valid_utf8(k) && #[trigger] spec_convert(m[k]) is Some by {
        assert(k == key_ut_metadata() || k == key_ut_pex());
    }
}

/// An extension handshake as a value: the ids, the metadata size and the
/// other fields the peer sent, as JSON.
pub ghost struct ExtensionHandshakeView {
    pub metadata: ExtensionHandshakeMetaData,
    pub metadata_size: Option<u32>,
    pub data: JView,
}

/// The handshake of the extension protocol: the peer's extension ids, the
/// size of the torrent's metadata, and every other field the peer sent.
#[derive(Debug)]
pub struct ExtensionHandshakeMessage {
    pub metadata: ExtensionHandshakeMetaData,
    pub metadata_size: Option<u32>,
    pub _data: JsonValue,
}

impl View for ExtensionHandshakeMessage {
    type V = ExtensionHandshakeView;

    open spec fn view(&self) -> ExtensionHandshakeView {
        ExtensionHandshakeView { metadata: self.metadata, metadata_size: self.metadata_size, data: self._data@ }
    }
}

/// The bencode dictionary of an extension handshake: the ids, and the
/// metadata size where there is one; the other fields are not written.
pub open spec fn handshake_bview(h: ExtensionHandshakeView) -> BView {
    BView::Dict(opt_insert(Map::empty().insert(key_m(), metadata_bview(h.metadata)),
        key_metadata_size(), opt_int(opt_u32_int(h.metadata_size))))
}

/// What reading an extension handshake from JSON gives. It must be an
/// object, with "m"; what reading "m" gives comes first, then a metadata size
/// that is not a `u32`, then a missing "m". Every other key is kept, as an
/// object.
pub open spec fn spec_handshake_of_json(j: JView) -> Result<ExtensionHandshakeView, TorrentError> {
    match j {
        JView::Object(m) => if m.dom().contains(key_m()) && spec_metadata_of_json(m[key_m()]) is Err {
            Err(spec_metadata_of_json(m[key_m()])->Err_0)
        } else if jfield_invalid(m, key_metadata_size(), |x: JView| ju32(x)) {
            Err(TorrentError::InvalidField)
        } else if !m.dom().contains(key_m()) {
            Err(TorrentError::MissingField)
        } else {
            Ok(ExtensionHandshakeView {
                metadata: spec_metadata_of_json(m[key_m()])->Ok_0,
                metadata_size: if m.dom().contains(key_metadata_size()) { ju32(m[key_metadata_size()]) } else { None },
                data: JView::Object(m.remove(key_m()).remove(key_metadata_size())),
            })
        },
        _ => Err(TorrentError::InvalidField),
    }
}

/// Whether the UTF-8 bytes of `name` are `key`.
fn name_is(name: &String, key: &[u8]) -> (res: bool)
    ensures
        res == (encode_utf8(name@) == key@),
{
    crate::bencode::bytes_eq(name.as_str().as_bytes(), key)
}

impl ExtensionHandshakeMessage {
    /// The handshake this client sends: it supports the metadata extension
    /// under id 1, and announces nothing else.
    pub fn default() -> (res: Self)
        ensures
            res.metadata == (ExtensionHandshakeMetaData { ut_metadata: 1, ut_pex: None }),
            res.metadata_size is None,
            res._data@ == JView::Null,
    {
        ExtensionHandshakeMessage {
            metadata: ExtensionHandshakeMetaData { ut_metadata: 1, ut_pex: None },
            metadata_size: None,
            _data: JsonValue::Null,
        }
    }

    /// Reads an extension handshake from JSON.
    pub fn from_json(j: JsonValue) -> (res: Result<ExtensionHandshakeMessage, TorrentError>)
        ensures
            match res {
                Ok(h) => spec_handshake_of_json(j@) == Ok::<ExtensionHandshakeView, TorrentError>(h@),
                Err(e) => spec_handshake_of_json(j@) == Err::<ExtensionHandshakeView, TorrentError>(e),
            },
    {
        let ghost jv = j@;
        let mut entries = match j {
            JsonValue::Object(entries) => entries,
            _ => {
                return Err(TorrentError::InvalidField);
            },
        };
        let ghost m = crate::json::jentries_view(entries@);
        assert(jv == JView::Object(m));
        let k_m: [u8; 1] = [109];
        let k_size: [u8; 13] = [109, 101, 116, 97, 100, 97, 116, 97, 95, 115, 105, 122, 101];
        assert(k_m@ =~= key_m());
        assert(k_size@ =~= key_metadata_size());
        let metadata: Option<ExtensionHandshakeMetaData> = match json_get(&entries, vstd::array::array_as_slice(&k_m)) {
            Some(x) => match ExtensionHandshakeMetaData::from_json(x) {
                Ok(md) => Some(md),
                Err(e) => {
                    return Err(e);
                },
            },
            None => None,
        };
        let size: Option<Option<u32>> = match json_get(&entries, vstd::array::array_as_slice(&k_size)) {
            Some(x) => Some(json_u32(x)),
            None => None,
        };
        if size.is_some() && size.unwrap().is_none() {
            return Err(TorrentError::InvalidField);
        }
        let metadata = match metadata {
            Some(md) => md,
            None => {
                return Err(TorrentError::MissingField);
            },
        };
        let metadata_size = match size {
            Some(Some(x)) => Some(x),
            _ => None,
        };
        let ghost all = entries@;
        let count = entries.len();
        let mut rest: Vec<(String, JsonValue)> = Vec::new();
        let mut i: usize = 0;
        while entries.len() > 0
            invariant
                count == all.len(),
                k_m@ == key_m(),
                k_size@ == key_metadata_size(),
                i + entries@.len() == all.len(),
                entries@ == all.subrange(i as int, all.len() as int),
                crate::json::jentries_view(rest@) == crate::json::jentries_view(all.subrange(0, i as int))
                    .remove(key_m()).remove(key_metadata_size()),
            decreases entries@.len(),
        {
            let ghost before = rest@;
            let e = entries.remove(0);
            let ghost prefix = all.subrange(0, i as int);
            let ghost next = all.subrange(0, i + 1);
            assert(next.drop_last() =~= prefix);
            assert(next.last() == e);
            let ghost k = encode_utf8(e.0@);
            let ghost pm = crate::json::jentries_view(prefix);
            assert(crate::json::jentries_view(next) == pm.insert(k, crate::json::jview(e.1)));
            let skip = name_is(&e.0, vstd::array::array_as_slice(&k_m)) || name_is(&e.0, vstd::array::array_as_slice(&k_size));
            if !skip {
                rest.push(e);
                assert(rest@.drop_last() =~= before);
                assert(crate::json::jentries_view(rest@) == crate::json::jentries_view(before).insert(k, crate::json::jview(e.1)));
                assert(crate::json::jentries_view(rest@) =~= pm.insert(k, crate::json::jview(e.1))
                    .remove(key_m()).remove(key_metadata_size()));
            } else {
                assert(k == key_m() || k == key_metadata_size());
                assert(crate::json::jentries_view(rest@) =~= pm.insert(k, crate::json::jview(e.1))
                    .remove(key_m()).remove(key_metadata_size()));
            }
            i = i + 1;
        }
        assert(all.subrange(0, i as int) =~= all);
        Ok(ExtensionHandshakeMessage { metadata, metadata_size, _data: JsonValue::Object(rest) })
    }

    /// The bencode dictionary of this handshake.
    pub fn to_bencode(&self) -> (res: BencodeValue)
        ensures
            res@ == handshake_bview(self@),
    {
        let mut e: Vec<(Vec<u8>, BencodeValue)> = Vec::new();
        let first = (vec![109u8], self.metadata.to_bencode());
        proof {
            lemma_entries_view_push(e@, first);
            assert(first.0@ =~= key_m());
            assert(entries_view(e@) =~= Map::empty());
        }
        e.push(first);
        match self.metadata_size {
            Some(x) => {
                let next = (vec![109u8, 101, 116, 97, 100, 97, 116, 97, 95, 115, 105, 122, 101], BencodeValue::Int(x as i64));
                proof {
                    lemma_entries_view_push(e@, next);
                    assert(next.0@ =~= key_metadata_size());
                }
                e.push(next);
            },
            None => {},
        }
        BencodeValue::Dict(e)
    }
}

/// An extension handshake, converted to JSON, read back as the same ids
/// and metadata size, with no other fields.
pub proof fn lemma_extension_handshake_json_roundtrip(h: ExtensionHandshakeView)
    ensures
        spec_convert(handshake_bview(h)) matches Some(j) && spec_handshake_of_json(j)
            == Ok::<ExtensionHandshakeView, TorrentError>(ExtensionHandshakeView {
                metadata: h.metadata,
                metadata_size: h.metadata_size,
                data: JView::Object(Map::empty()),
            }),
{
    lemma_ascii_valid_utf8(key_m());
    lemma_ascii_valid_utf8(key_metadata_size());
    lemma_metadata_json_roundtrip(h.metadata);
    assert(key_m() != key_metadata_size()) by {
        assert(key_m().len() != key_metadata_size().len());
    }
    let m = opt_insert(Map::empty().insert(key_m(), metadata_bview(h.metadata)),
        key_metadata_size(), opt_int(opt_u32_int(h.metadata_size)));
    assert(m.dom().finite()) by {
        if h.metadata_size is Some {
            assert(m.dom() =~= set![key_m(), key_metadata_size()]);
        } else {
            assert(m.dom() =~= set![key_m()]);
        }
    }
    crate::json::lemma_convert_dict(m);
    assert forall|k: Seq<u8>| m.dom().contains(k) implies valid_utf8(k) && #[trigger] spec_convert(m[k]) is Some by {
        assert(k == key_m() || k == key_metadata_size());
    }
    let o = Map::new(|k: Seq<u8>| m.dom().contains(k), |k: Seq<u8>| spec_convert(m[k]).unwrap());
    assert(o.remove(key_m()).remove(key_metadata_size()) =~= Map::empty());
}

impl MessageSerialization for ExtensionHandshakeMessage {
    open spec fn serialize_requires(&self) -> bool {
        true
    }

    /// The ids and the metadata size; the other fields are not written.
    open spec fn spec_serialize(&self) -> Option<Seq<u8>> {
        Some(spec_bencode_encode(handshake_bview(self@)))
    }

    /// The bytes must start with a bencode value.
    open spec fn deserialize_requires(data: Seq<u8>) -> bool {
        spec_bencode_decode(data) is Some
    }

    /// The handshake comes from the JSON form of the bencode value at the
    /// front of the bytes; a byte string that is not UTF-8, at any depth, is
    /// an error.
    open spec fn spec_deserialize(data: Seq<u8>) -> Result<ExtensionHandshakeView, TorrentError> {
        match spec_convert(spec_bencode_decode(data).unwrap()) {
            None => Err(TorrentError::InvalidUtf8),
            Some(j) => spec_handshake_of_json(j),
        }
    }

    /// Reading the bytes back gives the same ids and metadata size, and no
    /// other fields.
    fn serialize(&self) -> (res: Result<Vec<u8>, TorrentError>)
        ensures
            res matches Ok(b) ==> Self::deserialize_requires(b@)
                && Self::spec_deserialize(b@) == Ok::<ExtensionHandshakeView, TorrentError>(ExtensionHandshakeView {
                    metadata: self.metadata,
                    metadata_size: self.metadata_size,
                    data: JView::Object(Map::empty()),
                }),
    {
        let b = crate::bencode::encode(&self.to_bencode());
        proof {
            assert(b@ + Seq::<u8>::empty() =~= b@);
            lemma_extension_handshake_json_roundtrip(self@);
        }
        Ok(b)
    }

    fn deserialize(data: &[u8]) -> (res: Result<Self, TorrentError>) {
        match crate::json::decode_json(data) {
            Ok(j) => ExtensionHandshakeMessage::from_json(j),
            Err(e) => Err(e),
        }
    }
}

// ----------------- METADATA REQUESTS -----------------

/// A message of the metadata extension: its type, the metadata piece it is
/// about and the metadata's total size; a data message carries the info
/// dictionary after its own bencode dictionary.
#[derive(Debug, Clone)]
pub struct ExtensionPieceRequestMessage {
    pub msg_type: u8,
    pub piece: u32,
    pub total_size: u32,
    pub torrent_info: Option<TorrentInfo>,
}

impl View for ExtensionPieceRequestMessage {
    type V = ExtensionPieceRequestView;

    open spec fn view(&self) -> ExtensionPieceRequestView {
        ExtensionPieceRequestView {
            msg_type: self.msg_type,
            piece: self.piece,
            total_size: self.total_size,
            torrent_info: match self.torrent_info {
                Some(i) => Some(i@),
                None => None,
            },
        }
    }
}

impl ExtensionPieceRequestMessage {
    /// A request for the first piece of the metadata.
    pub fn default() -> (res: Self)
        ensures
            res@ == (ExtensionPieceRequestView { msg_type: 0, piece: 0, total_size: 0, torrent_info: None }),
    {
        ExtensionPieceRequestMessage { msg_type: 0, piece: 0, total_size: 0, torrent_info: None }
    }
}

impl MessageSerialization for ExtensionPieceRequestMessage {
    open spec fn serialize_requires(&self) -> bool {
        info_fits(self@.torrent_info)
    }

    /// The bencode dictionary of the numbers, with the total size replaced
    /// by the size of the info dictionary's bytes, then those bytes.
    open spec fn spec_serialize(&self) -> Option<Seq<u8>> {
        let info = info_bytes(self@.torrent_info);
        Some(spec_bencode_encode(request_header_bview(self.msg_type, self.piece, announced_total(info.len()))) + info)
    }

    /// The bytes must start with a bencode value; a nonzero total size that
    /// it announces must not exceed them, and the bytes it counts at the end
    /// must hold an info dictionary.
    open spec fn deserialize_requires(data: Seq<u8>) -> bool {
        &&& spec_bencode_decode(data) is Some
        &&& (request_header_of_bytes(data) matches Ok((_, _, total)) ==> total <= data.len())
        &&& (request_header_of_bytes(data) matches Ok((_, _, total)) ==> (total > 0 ==> (
            spec_bencode_decode(last_bytes(data, total as nat)) is Some
            && spec_info_of(spec_bencode_decode(last_bytes(data, total as nat)).unwrap()) is Ok)))
    }

    /// The numbers come from the JSON form of the bencode value at the front
    /// of the bytes (a byte string that is not UTF-8, at any depth, is an
    /// error). A nonzero total size announces an info dictionary in that
    /// many bytes at the end.
    open spec fn spec_deserialize(data: Seq<u8>) -> Result<ExtensionPieceRequestView, TorrentError> {
        match request_header_of_bytes(data) {
            Err(e) => Err(e),
            Ok((t, p, total)) => if total == 0 {
                Ok(ExtensionPieceRequestView { msg_type: t, piece: p, total_size: total, torrent_info: None })
            } else {
                Ok(ExtensionPieceRequestView {
                    msg_type: t,
                    piece: p,
                    total_size: total,
                    torrent_info: Some(spec_info_of(spec_bencode_decode(last_bytes(data, total as nat)).unwrap())->Ok_0),
                })
            },
        }
    }

    /// Reading the bytes back gives the same message, with the total size
    /// of its info dictionary's bytes, where that size fits 32 bits.
    fn serialize(&self) -> (res: Result<Vec<u8>, TorrentError>)
        ensures
            res matches Ok(b) ==> (info_bytes(self@.torrent_info).len() < 0x1_0000_0000 ==> (
                Self::deserialize_requires(b@)
                && Self::spec_deserialize(b@) == Ok::<ExtensionPieceRequestView, TorrentError>(ExtensionPieceRequestView {
                    msg_type: self.msg_type,
                    piece: self.piece,
                    total_size: info_bytes(self@.torrent_info).len() as u32,
                    torrent_info: self@.torrent_info,
                }))),
    {
        let info: Vec<u8> = match &self.torrent_info {
            Some(i) => crate::bencode::encode(&i.to_bencode()),
            None => Vec::new(),
        };
        assert(info@ == info_bytes(self@.torrent_info));
        let total: u32 = ((info.len() as u64) % 0x1_0000_0000) as u32;
        let header = crate::bencode::encode(&request_header_to_bencode(self.msg_type, self.piece, total));
        let mut out: Vec<u8> = Vec::new();
        append_bytes(&mut out, header.as_slice());
        append_bytes(&mut out, info.as_slice());
        proof {
            if info@.len() < 0x1_0000_0000 {
                lemma_request_header_roundtrip(self.msg_type, self.piece, total);
                assert(spec_bencode_decode(header@ + info@) == Some(request_header_bview(self.msg_type, self.piece, total)));
                assert(last_bytes(out@, total as nat) =~= info@);
                if self.torrent_info is Some {
                    let i = self.torrent_info.unwrap();
                    assert(info@ + Seq::<u8>::empty() =~= info@);
                    lemma_info_roundtrip(i@);
                }
            }
        }
        Ok(out)
    }

    fn deserialize(data: &[u8]) -> (res: Result<Self, TorrentError>) {
        let j = match crate::json::decode_json(data) {
            Ok(j) => j,
            Err(e) => {
                return Err(e);
            },
        };
        let (msg_type, piece, total_size) = match request_header_from_json(&j) {
            Ok(h) => h,
            Err(e) => {
                return Err(e);
            },
        };
        if total_size == 0 {
            return Ok(ExtensionPieceRequestMessage { msg_type, piece, total_size, torrent_info: None });
        }
        let tail = vstd::slice::slice_subrange(data, data.len() - total_size as usize, data.len());
        let v = match crate::bencode::decode(tail) {
            Ok(v) => v,
            Err(_) => vstd::pervasive::unreached(),
        };
        match TorrentInfo::from_bencode(&v) {
            Ok(info) => Ok(ExtensionPieceRequestMessage { msg_type, piece, total_size, torrent_info: Some(info) }),
            Err(_) => vstd::pervasive::unreached(),
        }
    }
}

// ----------------- CODEC -----------------

/// The longest frame payload (tag included) that the codec accepts.
pub const MAX_MESSAGE_LENGTH: usize = 65536;

/// Messages that may be handed to the codec for sending.
pub trait SendableMessage {}

impl SendableMessage for PeerHandshake {}

impl<T> SendableMessage for PeerMessage<T> where T: MessageSerialization {}

/// One unit read off a connection: the handshake, or a message.
#[derive(Debug)]
pub enum PeerFrame {
    Handshake(PeerHandshake),
    Message(PeerMessageBuffer),
}

/// A frame as a value: the handshake, or a tag with its raw payload.
pub ghost enum FrameView {
    Handshake(PeerHandshake),
    Message(MessageTag, Seq<u8>),
}

impl View for PeerFrame {
    type V = FrameView;

    open spec fn view(&self) -> FrameView {
        match self {
            PeerFrame::Handshake(h) => FrameView::Handshake(*h),
            PeerFrame::Message(m) => FrameView::Message(m.message_tag, m.message@),
        }
    }
}

/// Whether the codec still waits for the handshake.
#[derive(Debug, PartialEq, Eq, Structural)]
pub enum CodecState {
    WaitingHandshake,
    Messages,
}

/// Splits the bytes of a connection into frames: first the handshake, then
/// length-prefixed messages.
pub struct PeerCodec {
    pub state: CodecState,
}

impl PeerCodec {
    /// A codec that waits for the handshake.
    pub fn new() -> (res: Self)
        ensures
            res.state == CodecState::WaitingHandshake,
    {
        PeerCodec { state: CodecState::WaitingHandshake }
    }
}

impl PeerFrame {
    /// The handshake of a handshake frame; a message frame is an error.
    pub fn expect_handshake(self) -> (res: Result<PeerHandshake, TorrentError>)
        ensures
            match self {
                PeerFrame::Handshake(h) => res == Ok::<PeerHandshake, TorrentError>(h),
                PeerFrame::Message(_) => res == Err::<PeerHandshake, TorrentError>(TorrentError::UnexpectedFrame),
            },
    {
        match self {
            PeerFrame::Handshake(handshake) => Ok(handshake),
            _ => Err(TorrentError::UnexpectedFrame),
        }
    }

    /// The message of a message frame, its payload read as a `T`; a
    /// handshake frame is an error.
    pub fn expect_message<T>(self) -> (res: Result<PeerMessage<T>, TorrentError>)
        where T: MessageSerialization,
        requires
            self matches PeerFrame::Message(m) ==> T::deserialize_requires(m.message@),
        ensures
            match self {
                PeerFrame::Message(m) => match res {
                    Ok(r) => r.message_tag == m.message_tag
                        && T::spec_deserialize(m.message@) == Ok::<T::V, TorrentError>(r.message@),
                    Err(e) => T::spec_deserialize(m.message@) == Err::<T::V, TorrentError>(e),
                },
                PeerFrame::Handshake(_) => res is Err && res->Err_0 == TorrentError::UnexpectedFrame,
            },
    {
        match self {
            PeerFrame::Message(message) => message.convert::<T>(),
            _ => Err(TorrentError::UnexpectedFrame),
        }
    }

    /// The message of a message frame, its payload read as an extension
    /// payload; a handshake frame is an error.
    pub fn expect_extension_message<T>(self) -> (res: Result<PeerMessage<ExtensionPayload<T>>, TorrentError>)
        where T: MessageSerialization,
        requires
            self matches PeerFrame::Message(m) ==> ExtensionPayload::<T>::deserialize_requires(m.message@),
        ensures
            match self {
                PeerFrame::Message(m) => match res {
                    Ok(r) => r.message_tag == m.message_tag
                        && ExtensionPayload::<T>::spec_deserialize(m.message@) == Ok::<(u8, T::V), TorrentError>(r.message@),
                    Err(e) => ExtensionPayload::<T>::spec_deserialize(m.message@) == Err::<(u8, T::V), TorrentError>(e),
                },
                PeerFrame::Handshake(_) => res is Err && res->Err_0 == TorrentError::UnexpectedFrame,
            },
    {
        self.expect_message::<ExtensionPayload<T>>()
    }

    /// The message of a message frame.
    pub fn unwrap_message(self) -> (res: PeerMessageBuffer)
        requires
            self is Message,
        ensures
            self == PeerFrame::Message(res),
    {
        match self {
            PeerFrame::Message(message) => message,
            PeerFrame::Handshake(_) => vstd::pervasive::unreached(),
        }
    }
}

/// What the codec does with the bytes `src` that it has so far, in state
/// `state`: how many bytes it uses up, the frame it yields (if any), and its
/// next state; or the error that it stops with.
pub open spec fn spec_decode(state: CodecState, src: Seq<u8>) -> Result<(nat, Option<FrameView>, CodecState), TorrentError> {
    match state {
        CodecState::WaitingHandshake => {
            if src.len() < 68 {
                Ok((0, None, CodecState::WaitingHandshake))
            } else {
                Ok((68, Some(FrameView::Handshake(handshake_of_bytes(src))), CodecState::Messages))
            }
        },
        CodecState::Messages => {
            if src.len() < 4 {
                Ok((0, None, CodecState::Messages))
            } else {
                let length = be_value(src.subrange(0, 4));
                if length == 0 {
                    Ok((4, None, CodecState::Messages))
                } else if src.len() < 5 {
                    Ok((0, None, CodecState::Messages))
                } else if length > 65536 {
                    Err(TorrentError::MessageTooLong(length as usize))
                } else if src.len() < length + 4 {
                    Ok((0, None, CodecState::Messages))
                } else {
                    match frame_deserialize::<Vec<u8>>(src.subrange(0, length + 4)) {
                        Ok((tag, payload)) => Ok(((length + 4) as nat, Some(FrameView::Message(tag, payload)), CodecState::Messages)),
                        Err(e) => Err(e),
                    }
                }
            }
        },
    }
}

impl PeerCodec {
    /// Reads the next frame from the front of `src`: returns how many bytes
    /// it used up and the frame, if `src` holds a whole one. A keep-alive (a
    /// zero length) is used up with no frame.
    pub fn decode(&mut self, src: &[u8]) -> (res: Result<(usize, Option<PeerFrame>), TorrentError>)
        ensures
            match spec_decode(old(self).state, src@) {
                Ok((used, frame, next)) => res is Ok && res->Ok_0.0 == used
                    && (match res->Ok_0.1 {
                        Some(f) => frame == Some(f@),
                        None => frame is None,
                    })
                    && final(self).state == next,
                Err(e) => res == Err::<(usize, Option<PeerFrame>), TorrentError>(e) && final(self).state == old(self).state,
            },
            res matches Ok((used, _)) ==> used <= src@.len(),
    {
        match self.state {
            CodecState::WaitingHandshake => {
                if src.len() < HANDSHAKE_LENGTH {
                    return Ok((0, None));
                }
                let handshake_data = vstd::slice::slice_subrange(src, 0, HANDSHAKE_LENGTH);
                let handshake = <PeerHandshake as MessageSerialization>::deserialize(handshake_data)?;
                assert(handshake_of_bytes(handshake_data@) == handshake_of_bytes(src@)) by {
                    assert(handshake_data@.subrange(1, 20) =~= src@.subrange(1, 20));
                    assert(handshake_data@.subrange(20, 28) =~= src@.subrange(20, 28));
                    assert(handshake_data@.subrange(28, 48) =~= src@.subrange(28, 48));
                    assert(handshake_data@.subrange(48, 68) =~= src@.subrange(48, 68));
                }
                self.state = CodecState::Messages;
                Ok((HANDSHAKE_LENGTH, Some(PeerFrame::Handshake(handshake))))
            },
            CodecState::Messages => {
                if src.len() < 4 {
                    return Ok((0, None));
                }
                let length = u32_from_be(src) as usize;
                assert(be_value(src@) == be_value(src@.subrange(0, 4)));
                if length == 0 {
                    return Ok((4, None));
                }
                if src.len() < 5 {
                    return Ok((0, None));
                }
                if length > MAX_MESSAGE_LENGTH {
                    return Err(TorrentError::MessageTooLong(length));
                }
                let message_length = length + 4;
                if src.len() < message_length {
                    return Ok((0, None));
                }
                let payload = vstd::slice::slice_subrange(src, 0, message_length);
                assert(payload@.subrange(0, 4) =~= src@.subrange(0, 4));
                let peer_message = <PeerMessageBuffer as MessageSerialization>::deserialize(payload)?;
                Ok((message_length, Some(PeerFrame::Message(peer_message))))
            },
        }
    }

    /// Appends the bytes of `item` to `dst`; nothing is appended where
    /// serializing fails.
    pub fn encode<T>(&mut self, item: T, dst: &mut Vec<u8>) -> (res: Result<(), TorrentError>)
        where T: MessageSerialization + SendableMessage,
        requires
            item.serialize_requires(),
        ensures
            final(self).state == old(self).state,
            match item.spec_serialize() {
                Some(b) => res is Ok && final(dst)@ == old(dst)@ + b,
                None => res is Err && final(dst)@ == old(dst)@,
            },
    {
        let bytes = item.serialize()?;
        append_bytes(dst, bytes.as_slice());
        Ok(())
    }
}


/// The codec reads a sent handshake back, whatever follows it, and then
/// waits for messages.
pub proof fn lemma_codec_handshake_roundtrip(h: PeerHandshake, rest: Seq<u8>)
    ensures
        spec_decode(CodecState::WaitingHandshake, handshake_bytes(h) + rest)
            == Ok::<(nat, Option<FrameView>, CodecState), TorrentError>((68, Some(FrameView::Handshake(h)), CodecState::Messages)),
{
    let b = handshake_bytes(h) + rest;
    assert(b.subrange(1, 20) =~= h.protocol@);
    assert(b.subrange(20, 28) =~= h.reserved@);
    assert(b.subrange(28, 48) =~= h.info_hash.0@);
    assert(b.subrange(48, 68) =~= h.peer_id@);
    lemma_array_of::<19>(h.protocol);
    lemma_array_of::<8>(h.reserved);
    lemma_array_of::<20>(h.info_hash.0);
    lemma_array_of::<20>(h.peer_id);
}

/// The codec reads a sent message back, whatever follows it, using up
/// exactly its bytes, wherever the payload fits the length limit.
pub proof fn lemma_codec_message_roundtrip(tag: MessageTag, payload: Seq<u8>, rest: Seq<u8>)
    requires
        payload.len() < MAX_MESSAGE_LENGTH,
    ensures
        spec_decode(CodecState::Messages, frame_bytes(tag, payload) + rest)
            == Ok::<(nat, Option<FrameView>, CodecState), TorrentError>((payload.len() + 5, Some(FrameView::Message(tag, payload)), CodecState::Messages)),
{
    let f = frame_bytes(tag, payload);
    let b = f + rest;
    let n = frame_length(payload.len());
    lemma_be_roundtrip(n);
    assert(b.subrange(0, 4) =~= be_bytes(n));
    assert(n == payload.len() + 1);
    assert(b.subrange(0, (payload.len() + 5) as int) =~= f);
    lemma_frame_roundtrip::<Vec<u8>>(tag, payload);
}

} // verus!
