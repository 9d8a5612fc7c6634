//! Trackers: the announce request that a client sends, and the tracker's
//! answer with the peers of a torrent.

use vstd::prelude::*;
use vstd::string::StringExecFns;
use vstd::utf8::{encode_utf8, valid_utf8};
use crate::bencode::{
    all_keys_utf8, bytes_field, dict_get, entries_view, field_invalid, keys_utf8, read_bytes, read_u32,
    spec_bencode_decode, u32_field, BView, BencodeValue,
};
use crate::peer::{compact_peers, Peer, Peers};
use crate::text::{decimal, push_char, push_decimal, string_from_utf8};
use crate::types::{url_encoded, HashId, PeerId, TorrentError};

verus! {

// ----------------- FORM ENCODING -----------------

/// `serde_urlencoded::ser::Error`, known to Verus as an opaque type.
#[verifier::external_type_specification]
#[verifier::external_body]
pub struct ExUrlEncodeError(serde_urlencoded::ser::Error);

/// The upper-case hex digit of a value below 16.
pub open spec fn upper_hex_digit(n: nat) -> char {
    if n < 10 { (48 + n) as char } else { (55 + n) as char }
}

/// A byte in `application/x-www-form-urlencoded` text: letters, digits and
/// `*-._` stand for themselves, a space is `+`, and every other byte is `%`
/// and two upper-case hex digits.
pub open spec fn form_byte(b: u8) -> Seq<char> {
    if b == 42 || b == 45 || b == 46 || b == 95 || (48 <= b && b <= 57) || (65 <= b && b <= 90) || (97 <= b && b <= 122) {
        seq![b as char]
    } else if b == 32 {
        seq!['+']
    } else {
        seq!['%', upper_hex_digit((b / 16) as nat), upper_hex_digit((b % 16) as nat)]
    }
}

/// Bytes in `application/x-www-form-urlencoded` text.
pub open spec fn form_bytes(b: Seq<u8>) -> Seq<char>
    decreases b.len(),
{
    if b.len() == 0 {
        Seq::empty()
    } else {
        form_bytes(b.drop_last()) + form_byte(b.last())
    }
}

/// Name and value pairs in `application/x-www-form-urlencoded` text: each
/// pair as its encoded name, `=` and its encoded value (both as UTF-8
/// bytes), the pairs separated by `&`.
pub open spec fn form_pairs(p: Seq<(Seq<char>, Seq<char>)>) -> Seq<char>
    decreases p.len(),
{
    if p.len() == 0 {
        Seq::empty()
    } else {
        let front = form_pairs(p.drop_last());
        (if p.len() > 1 { front + seq!['&'] } else { front }) + form_bytes(encode_utf8(p.last().0)) + seq!['=']
            + form_bytes(encode_utf8(p.last().1))
    }
}

/// The text of some name and value pairs.
pub open spec fn pairs_text(p: Seq<(String, String)>) -> Seq<(Seq<char>, Seq<char>)> {
    Seq::new(p.len(), |i: int| (p[i].0@, p[i].1@))
}

/// Encodes name and value pairs as `application/x-www-form-urlencoded`
/// text (`serde_urlencoded::to_string` on a sequence of string pairs, which
/// hands each pair to `form_urlencoded`); this never fails.
#[verifier::external_body]
fn form_urlencode(pairs: &Vec<(String, String)>) -> (res: Result<String, serde_urlencoded::ser::Error>)
    ensures
        res is Ok,
        res matches Ok(s) ==> s@ == form_pairs(pairs_text(pairs@)),
{
    serde_urlencoded::to_string(pairs)
}

// ----------------- REQUESTS -----------------

/// The parameters of an announce: this client's peer id and port, what it
/// has uploaded and downloaded, what it still lacks, and that it wants the
/// compact peer list.
#[derive(Debug, Clone)]
pub struct TackerRequest {
    pub peer_id: String,
    pub port: u16,
    pub uploaded: u16,
    pub downloaded: u16,
    pub left: usize,
    pub compact: usize,
}

/// The name and value text of the parameters, in order.
pub open spec fn request_pairs(r: TackerRequest) -> Seq<(Seq<char>, Seq<char>)> {
    seq![
        (seq!['p', 'e', 'e', 'r', '_', 'i', 'd'], r.peer_id@),
        (seq!['p', 'o', 'r', 't'], decimal(r.port as nat)),
        (seq!['u', 'p', 'l', 'o', 'a', 'd', 'e', 'd'], decimal(r.uploaded as nat)),
        (seq!['d', 'o', 'w', 'n', 'l', 'o', 'a', 'd', 'e', 'd'], decimal(r.downloaded as nat)),
        (seq!['l', 'e', 'f', 't'], decimal(r.left as nat)),
        (seq!['c', 'o', 'm', 'p', 'a', 'c', 't'], decimal(r.compact as nat)),
    ]
}

/// The URL of an announce: the tracker's URL, `?`, the form-encoded
/// parameters, and the info hash, url-encoded.
pub open spec fn announce_url_text(tracker_url: Seq<char>, r: TackerRequest, info_hash: HashId) -> Seq<char> {
    tracker_url + seq!['?'] + form_pairs(request_pairs(r))
        + seq!['&', 'i', 'n', 'f', 'o', '_', 'h', 'a', 's', 'h', '='] + url_encoded(info_hash.0@)
}

/// A name and value pair.
fn text_pair(name: &str, value: String) -> (res: (String, String))
    ensures
        res.0@ == name@,
        res.1@ == value@,
{
    (name.to_owned(), value)
}

/// The decimal text of `n`.
fn decimal_text(n: u64) -> (res: String)
    ensures
        res@ == decimal(n as nat),
{
    let mut s = String::new();
    push_decimal(&mut s, n);
    s
}

impl TackerRequest {
    /// The announce of a client that has nothing yet and lacks `left`
    /// bytes, on port 6881; a peer id that is not UTF-8 is an error.
    pub fn new(peer_id: &PeerId, left: usize) -> (res: Result<TackerRequest, TorrentError>)
        ensures
            match res {
                Ok(r) => valid_utf8(peer_id@) && r.peer_id@ == vstd::utf8::decode_utf8(peer_id@) && r.port == 6881
                    && r.uploaded == 0 && r.downloaded == 0 && r.left == left && r.compact == 1,
                Err(e) => !valid_utf8(peer_id@) && e == TorrentError::InvalidUtf8,
            },
    {
        let id = match string_from_utf8(vstd::slice::slice_to_vec(vstd::array::array_as_slice(peer_id))) {
            Some(s) => s,
            None => {
                return Err(TorrentError::InvalidUtf8);
            },
        };
        Ok(TackerRequest { peer_id: id, port: 6881, uploaded: 0, downloaded: 0, left, compact: 1 })
    }

    /// The parameters as `application/x-www-form-urlencoded` text.
    pub fn query(&self) -> (res: String)
        ensures
            res@ == form_pairs(request_pairs(*self)),
    {
        let mut pairs: Vec<(String, String)> = Vec::new();
        pairs.push(text_pair("peer_id", self.peer_id.clone()));
        pairs.push(text_pair("port", decimal_text(self.port as u64)));
        pairs.push(text_pair("uploaded", decimal_text(self.uploaded as u64)));
        pairs.push(text_pair("downloaded", decimal_text(self.downloaded as u64)));
        pairs.push(text_pair("left", decimal_text(self.left as u64)));
        pairs.push(text_pair("compact", decimal_text(self.compact as u64)));
        proof {
            reveal_strlit("peer_id");
            reveal_strlit("port");
            reveal_strlit("uploaded");
            reveal_strlit("downloaded");
            reveal_strlit("left");
            reveal_strlit("compact");
            let r = request_pairs(*self);
            assert(pairs@.len() == 6);
            assert(pairs@[0].0@ =~= r[0].0);
            assert(pairs@[1].0@ =~= r[1].0);
            assert(pairs@[2].0@ =~= r[2].0);
            assert(pairs@[3].0@ =~= r[3].0);
            assert(pairs@[4].0@ =~= r[4].0);
            assert(pairs@[5].0@ =~= r[5].0);
            assert(pairs_text(pairs@) =~= r);
        }
        match form_urlencode(&pairs) {
            Ok(s) => s,
            Err(_) => vstd::pervasive::unreached(),
        }
    }
}

// ----------------- RESPONSES -----------------

/// The key "interval".
pub open spec fn key_interval() -> Seq<u8> {
    seq![105u8, 110, 116, 101, 114, 118, 97, 108]
}

/// The key "peers".
pub open spec fn key_peers() -> Seq<u8> {
    seq![112u8, 101, 101, 114, 115]
}

/// A tracker's answer: how long to wait before the next announce, and the
/// peers of the torrent.
#[derive(Debug, Clone)]
pub struct Tracker {
    pub _interval: u32,
    pub peers: Peers,
}

impl View for Tracker {
    type V = (u32, Seq<Peer>);

    open spec fn view(&self) -> (u32, Seq<Peer>) {
        (self._interval, self.peers@)
    }
}

/// What reading a tracker's answer from a bencode value gives. A dictionary
/// needs "interval" (a `u32`) and "peers" (a compact peer list); other keys
/// are not read. A key that is not UTF-8, or a field of the wrong kind, is an
/// invalid field; then a peer list whose length is not a multiple of six;
/// then a missing field. A list gives the two fields in order.
/// The dictionary is read as the decoded map, so a key given twice counts
/// once, with its last value.
pub open spec fn spec_tracker_of(v: BView) -> Result<(u32, Seq<Peer>), TorrentError> {
    match v {
        BView::Dict(m) => if !keys_utf8(m) || field_invalid(m, key_interval(), |b: BView| u32_field(b))
            || field_invalid(m, key_peers(), |b: BView| bytes_field(b)) {
            Err(TorrentError::InvalidField)
        } else if m.dom().contains(key_peers()) && bytes_field(m[key_peers()]).unwrap().len() % 6 != 0 {
            Err(TorrentError::InvalidPeersLength(bytes_field(m[key_peers()]).unwrap().len() as usize))
        } else if !(m.dom().contains(key_interval()) && m.dom().contains(key_peers())) {
            Err(TorrentError::MissingField)
        } else {
            Ok((u32_field(m[key_interval()]).unwrap(), compact_peers(bytes_field(m[key_peers()]).unwrap())))
        },
        BView::List(items) => if items.len() < 1 {
            Err(TorrentError::InvalidLength)
        } else if u32_field(items[0]) is None {
            Err(TorrentError::InvalidField)
        } else if items.len() < 2 {
            Err(TorrentError::InvalidLength)
        } else if bytes_field(items[1]) is None {
            Err(TorrentError::InvalidField)
        } else if bytes_field(items[1]).unwrap().len() % 6 != 0 {
            Err(TorrentError::InvalidPeersLength(bytes_field(items[1]).unwrap().len() as usize))
        } else {
            Ok((u32_field(items[0]).unwrap(), compact_peers(bytes_field(items[1]).unwrap())))
        },
        _ => Err(TorrentError::InvalidField),
    }
}

/// What reading a tracker's answer from its bytes gives: bytes that do not
/// start with a bencode value are an error.
pub open spec fn spec_tracker_response(data: Seq<u8>) -> Result<(u32, Seq<Peer>), TorrentError> {
    match spec_bencode_decode(data) {
        None => Err(TorrentError::Bencode),
        Some(v) => spec_tracker_of(v),
    }
}

impl Tracker {
    /// The URL that announces `request` for the torrent `info_hash` to the
    /// tracker at `tracker_url`.
    pub fn announce_url(tracker_url: &str, request: &TackerRequest, info_hash: &HashId) -> (res: String)
        ensures
            res@ == announce_url_text(tracker_url@, *request, *info_hash),
    {
        let mut url = String::from_str(tracker_url);
        push_char(&mut url, '?');
        let query = request.query();
        url.append(query.as_str());
        url.append("&info_hash=");
        let hash = info_hash.url_encode();
        url.append(hash.as_str());
        proof {
            reveal_strlit("&info_hash=");
            assert(url@ =~= announce_url_text(tracker_url@, *request, *info_hash));
        }
        url
    }

    /// Reads a tracker's answer from a bencode value.
    pub fn from_bencode(v: &BencodeValue) -> (res: Result<Tracker, TorrentError>)
        ensures
            match res {
                Ok(t) => spec_tracker_of(v@) == Ok::<(u32, Seq<Peer>), TorrentError>(t@),
                Err(e) => spec_tracker_of(v@) == Err::<(u32, Seq<Peer>), TorrentError>(e),
            },
    {
        match v {
            BencodeValue::Dict(entries) => {
                let ghost m = entries_view(entries@);
                assert(v@ == BView::Dict(m));
                let keys_ok = all_keys_utf8(entries);
                let k_interval: [u8; 8] = [105, 110, 116, 101, 114, 118, 97, 108];
                let k_peers: [u8; 5] = [112, 101, 101, 114, 115];
                assert(k_interval@ =~= key_interval());
                assert(k_peers@ =~= key_peers());
                let interval: Option<Option<u32>> = match dict_get(entries, vstd::array::array_as_slice(&k_interval)) {
                    Some(x) => Some(read_u32(x)),
                    None => None,
                };
                let peers: Option<Option<Vec<u8>>> = match dict_get(entries, vstd::array::array_as_slice(&k_peers)) {
                    Some(x) => Some(read_bytes(x)),
                    None => None,
                };
                if !keys_ok || (interval.is_some() && interval.unwrap().is_none())
                    || (peers.is_some() && peers.as_ref().unwrap().is_none()) {
                    return Err(TorrentError::InvalidField);
                }
                let peers = match peers {
                    Some(Some(b)) => Some(Peers::from_compact(b.as_slice())?),
                    _ => None,
                };
                match (interval, peers) {
                    (Some(Some(i)), Some(p)) => Ok(Tracker { _interval: i, peers: p }),
                    _ => Err(TorrentError::MissingField),
                }
            },
            BencodeValue::List(items) => {
                proof {
                    crate::json::lemma_list_view(items@);
                }
                assert(v@ == BView::List(crate::bencode::list_view(items@)));
                if items.len() < 1 {
                    return Err(TorrentError::InvalidLength);
                }
                let interval = match read_u32(&items[0]) {
                    Some(x) => x,
                    None => {
                        return Err(TorrentError::InvalidField);
                    },
                };
                if items.len() < 2 {
                    return Err(TorrentError::InvalidLength);
                }
                let bytes = match read_bytes(&items[1]) {
                    Some(x) => x,
                    None => {
                        return Err(TorrentError::InvalidField);
                    },
                };
                let peers = Peers::from_compact(bytes.as_slice())?;
                Ok(Tracker { _interval: interval, peers })
            },
            _ => Err(TorrentError::InvalidField),
        }
    }

    /// Reads a tracker's answer from the bytes of the HTTP response.
    pub fn from_response(data: &[u8]) -> (res: Result<Tracker, TorrentError>)
        ensures
            match res {
                Ok(t) => spec_tracker_response(data@) == Ok::<(u32, Seq<Peer>), TorrentError>(t@),
                Err(e) => spec_tracker_response(data@) == Err::<(u32, Seq<Peer>), TorrentError>(e),
            },
    {
        match crate::bencode::decode(data) {
            Ok(v) => Tracker::from_bencode(&v),
            Err(e) => Err(e),
        }
    }
}

} // verus!
