//! A BitTorrent client library: the peer wire protocol, torrent metadata,
//! magnet links, tracker requests and bencode handling.

pub mod text;
pub mod torrent;
pub mod types;
pub mod wire;
pub mod bencode;
pub mod json;
pub mod messages;
pub mod peer;
pub mod peer_messages;
pub mod tracker;
pub mod magnet;
pub mod download;

use vstd::prelude::*;

verus! {

/// This client's peer id, "-PC0001-123456701112".
pub const PEER_ID: &'static types::PeerId = &[45, 80, 67, 48, 48, 48, 49, 45, 49, 50, 51, 52, 53, 54, 55, 48, 49, 49, 49, 50];

/// Reads the bencode value at the front of `data` as JSON: integers become
/// numbers, byte strings text, lists arrays and dictionaries objects. A byte
/// string that is not UTF-8, at any depth, is an error. Bytes after the
/// value are not read.
pub fn decode_bencode(data: &[u8]) -> (res: Result<json::JsonValue, types::TorrentError>)
    requires
        bencode::spec_bencode_decode(data@) is Some,
    ensures
        match json::spec_convert(bencode::spec_bencode_decode(data@).unwrap()) {
            Some(j) => res is Ok && res->Ok_0@ == j,
            None => res == Err::<json::JsonValue, types::TorrentError>(types::TorrentError::InvalidUtf8),
        },
{
    json::decode_json(data)
}

/// Reads the bencode value at the front of `data` as JSON, as
/// `decode_bencode` does; `None` where the bytes do not start with a
/// bencode value.
pub fn try_decode_bencode(data: &[u8]) -> (res: Option<Result<json::JsonValue, types::TorrentError>>)
    ensures
        match bencode::spec_bencode_decode(data@) {
            None => res is None,
            Some(v) => match json::spec_convert(v) {
                Some(j) => res matches Some(Ok(x)) && x@ == j,
                None => res == Some(Err::<json::JsonValue, types::TorrentError>(types::TorrentError::InvalidUtf8)),
            },
        },
{
    match bencode::decode(data) {
        Ok(_) => Some(decode_bencode(data)),
        Err(_) => None,
    }
}

/// The JSON value of a bencode value: integers become numbers, byte strings
/// text, lists arrays and dictionaries objects (with the same keys, as
/// text). A byte string or key that is not UTF-8, at any depth, is an error.
pub fn convert(value: bencode::BencodeValue) -> (res: Result<json::JsonValue, types::TorrentError>)
    requires
        bencode::value_wf(value),
    ensures
        match res {
            Ok(j) => json::spec_convert(value@) == Some(j@),
            Err(e) => json::spec_convert(value@) is None && e == types::TorrentError::InvalidUtf8,
        },
{
    json::convert_value(&value)
}

} // verus!
