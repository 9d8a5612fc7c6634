//! Torrent metadata: the info dictionary, its piece hashes, its bencode
//! form and its info hash.

use vstd::prelude::*;
use sha1::Digest;
use vstd::utf8::{encode_utf8, valid_utf8};
use crate::bencode::{all_keys_utf8, bytes_field, read_bytes, dict_get, encode, entries_view, read_text, read_usize, spec_bencode_encode, text_field, usize_field, BView, BencodeValue};
use crate::types::{hex_encode, hex_text, push_url_encoded, url_encoded, HashId, TorrentError};
use crate::wire::{append_bytes, array_of, lemma_array_of, take_array};

verus! {

/// The SHA-1 digest of some bytes.
pub uninterp spec fn spec_sha1(data: Seq<u8>) -> Seq<u8>;

/// The SHA-1 digest of `data` (`sha1::Sha1::digest`, as 20 bytes).
/// Trusted: that the digest is a function of the bytes alone.
#[verifier::external_body]
pub(crate) fn sha1_digest(data: &[u8]) -> (res: [u8; 20])
    ensures
        res@ == spec_sha1(data@),
{
    sha1::Sha1::digest(data).into()
}

/// A torrent file: the tracker's URL and the info dictionary.
#[derive(Debug, Clone)]
pub struct Torrent {
    pub announce: String,
    pub info: TorrentInfo,
}

/// The info dictionary of a torrent: the file's name and length, the piece
/// length, and the hash of each piece.
#[derive(Debug, Clone)]
pub struct TorrentInfo {
    pub name: String,
    pub piece_length: usize,
    pub pieces: PiecesHashes,
    pub length: usize,
}

/// The hashes of the pieces, in order.
#[derive(Debug, Clone)]
pub struct PiecesHashes(Vec<HashId>);

impl View for PiecesHashes {
    type V = Seq<HashId>;

    closed spec fn view(&self) -> Seq<HashId> {
        self.0@
    }
}

/// An info dictionary as a value.
pub ghost struct TorrentInfoView {
    pub name: Seq<char>,
    pub piece_length: usize,
    pub pieces: Seq<HashId>,
    pub length: usize,
}

impl View for TorrentInfo {
    type V = TorrentInfoView;

    open spec fn view(&self) -> TorrentInfoView {
        TorrentInfoView { name: self.name@, piece_length: self.piece_length, pieces: self.pieces@, length: self.length }
    }
}

/// The hashes that consecutive 20-byte chunks of `b` stand for.
pub open spec fn hashes_of_bytes(b: Seq<u8>) -> Seq<HashId> {
    Seq::new(b.len() / 20, |i: int| HashId(array_of::<20>(b.subrange(20 * i, 20 * i + 20))))
}

/// The bytes of hashes, one after another.
pub open spec fn bytes_of_hashes(h: Seq<HashId>) -> Seq<u8>
    decreases h.len(),
{
    if h.len() == 0 {
        Seq::empty()
    } else {
        bytes_of_hashes(h.drop_last()) + h.last().0@
    }
}

/// The bytes of `k` hashes are `20 * k` bytes.
pub proof fn lemma_bytes_of_hashes_len(h: Seq<HashId>)
    ensures
        bytes_of_hashes(h).len() == 20 * h.len(),
    decreases h.len(),
{
    if h.len() > 0 {
        lemma_bytes_of_hashes_len(h.drop_last());
    }
}

/// Cutting the bytes of hashes into 20-byte chunks gives the hashes back.
pub proof fn lemma_hashes_roundtrip(h: Seq<HashId>)
    ensures
        hashes_of_bytes(bytes_of_hashes(h)) == h,
    decreases h.len(),
{
    lemma_bytes_of_hashes_len(h);
    if h.len() > 0 {
        let front = h.drop_last();
        lemma_hashes_roundtrip(front);
        lemma_bytes_of_hashes_len(front);
        let b = bytes_of_hashes(h);
        let fb = bytes_of_hashes(front);
        assert forall|i: int| 0 <= i < h.len() implies #[trigger] hashes_of_bytes(b)[i] == h[i] by {
            if i < h.len() - 1 {
                assert(b.subrange(20 * i, 20 * i + 20) =~= fb.subrange(20 * i, 20 * i + 20));
                assert(hashes_of_bytes(fb)[i] == front[i]);
            } else {
                assert(b.subrange(20 * i, 20 * i + 20) =~= h.last().0@);
                lemma_array_of::<20>(h.last().0);
            }
        }
        assert(hashes_of_bytes(b) =~= h);
    } else {
        assert(hashes_of_bytes(bytes_of_hashes(h)) =~= h);
    }
}

/// Piece-hash bytes cut into 20-byte hashes and written back one after
/// another are the same bytes, in the same order.
pub proof fn lemma_pieces_bytes_roundtrip(b: Seq<u8>)
    requires
        b.len() % 20 == 0,
    ensures
        bytes_of_hashes(hashes_of_bytes(b)) == b,
    decreases b.len(),
{
    if b.len() == 0 {
        assert(hashes_of_bytes(b) =~= Seq::<HashId>::empty());
        assert(bytes_of_hashes(hashes_of_bytes(b)) =~= b);
    } else {
        let n = b.len() / 20;
        let front = b.subrange(0, b.len() - 20);
        assert(front.len() == 20 * (n - 1));
        assert(front.len() / 20 == n - 1);
        lemma_pieces_bytes_roundtrip(front);
        let h = hashes_of_bytes(b);
        assert forall|i: int| 0 <= i < n - 1 implies #[trigger] h.drop_last()[i] == hashes_of_bytes(front)[i] by {
            assert(b.subrange(20 * i, 20 * i + 20) =~= front.subrange(20 * i, 20 * i + 20));
        }
        assert(h.drop_last() =~= hashes_of_bytes(front));
        let last = b.subrange(b.len() - 20, b.len() as int);
        assert(h.last() == HashId(array_of::<20>(b.subrange(20 * (n - 1), 20 * (n - 1) + 20))));
        assert(b.subrange(20 * (n - 1), 20 * (n - 1) + 20) =~= last);
        crate::wire::lemma_array_of_seq::<20>(last);
        assert(bytes_of_hashes(h) == bytes_of_hashes(h.drop_last()) + h.last().0@);
        assert(bytes_of_hashes(h) =~= b);
    }
}

impl PiecesHashes {
    /// The hashes of consecutive 20-byte chunks; a length that is not a
    /// multiple of 20 is an error.
    pub fn from_bytes(bytes: &[u8]) -> (res: Result<PiecesHashes, TorrentError>)
        ensures
            match res {
                Ok(p) => bytes@.len() % 20 == 0 && p@ == hashes_of_bytes(bytes@),
                Err(e) => bytes@.len() % 20 != 0 && e == TorrentError::InvalidField,
            },
    {
        if bytes.len() % 20 != 0 {
            return Err(TorrentError::InvalidField);
        }
        let count = bytes.len() / 20;
        let mut hashes: Vec<HashId> = Vec::new();
        let mut i: usize = 0;
        while i < count
            invariant
                count == bytes@.len() / 20,
                bytes@.len() == bytes.len(),
                bytes@.len() % 20 == 0,
                i <= count,
                hashes@ =~= hashes_of_bytes(bytes@).subrange(0, i as int),
            decreases count - i,
        {
            assert(20 * i + 20 <= bytes@.len()) by (nonlinear_arith)
                requires i < count, count == bytes@.len() / 20;
            let hash: [u8; 20] = take_array(bytes, 20 * i);
            proof {
                lemma_array_of::<20>(hash);
            }
            hashes.push(HashId(hash));
            i = i + 1;
        }
        Ok(PiecesHashes(hashes))
    }

    /// The bytes of the hashes, one after another.
    pub fn to_bytes(&self) -> (res: Vec<u8>)
        ensures
            res@ == bytes_of_hashes(self@),
    {
        let mut out: Vec<u8> = Vec::new();
        let mut i: usize = 0;
        while i < self.0.len()
            invariant
                i <= self.0@.len(),
                out@ == bytes_of_hashes(self.0@.subrange(0, i as int)),
            decreases self.0@.len() - i,
        {
            append_bytes(&mut out, vstd::array::array_as_slice(&self.0[i].0));
            proof {
                let next = self.0@.subrange(0, i + 1);
                assert(next.drop_last() =~= self.0@.subrange(0, i as int));
            }
            i = i + 1;
        }
        assert(self.0@.subrange(0, self.0@.len() as int) =~= self.0@);
        out
    }

    /// The number of pieces.
    pub fn len(&self) -> (res: usize)
        ensures
            res == self@.len(),
    {
        self.0.len()
    }

    /// The hash of piece `i`.
    pub fn get(&self, i: usize) -> (res: HashId)
        requires
            i < self@.len(),
        ensures
            res == self@[i as int],
    {
        self.0[i]
    }

    /// The hashes, in order.
    pub fn iter(&self) -> (res: std::slice::Iter<'_, HashId>)
        ensures
            vstd::std_specs::slice::into_iter_elts(res) == self@,
    {
        broadcast use vstd::std_specs::slice::axiom_spec_slice_iter;
        self.0.as_slice().iter()
    }

    /// The lower-case hex text of each hash.
    pub fn encoded_hashes(&self) -> (res: Vec<String>)
        ensures
            res@.len() == self@.len(),
            forall|i: int| 0 <= i < self@.len() ==> #[trigger] res@[i]@ == hex_text(self@[i].0@),
    {
        let mut hashes: Vec<String> = Vec::new();
        let mut i: usize = 0;
        while i < self.0.len()
            invariant
                i <= self.0@.len(),
                hashes@.len() == i,
                forall|j: int| 0 <= j < i ==> #[trigger] hashes@[j]@ == hex_text(self.0@[j].0@),
            decreases self.0@.len() - i,
        {
            hashes.push(hex_encode(vstd::array::array_as_slice(&self.0[i].0)));
            i = i + 1;
        }
        hashes
    }
}


/// The key "name".
pub open spec fn key_name() -> Seq<u8> {
    seq![110u8, 97, 109, 101]
}

/// The key "piece length".
pub open spec fn key_piece_length() -> Seq<u8> {
    seq![112u8, 105, 101, 99, 101, 32, 108, 101, 110, 103, 116, 104]
}

/// The key "pieces".
pub open spec fn key_pieces() -> Seq<u8> {
    seq![112u8, 105, 101, 99, 101, 115]
}

/// The key "length".
pub open spec fn key_length() -> Seq<u8> {
    seq![108u8, 101, 110, 103, 116, 104]
}

/// The hashes of a byte-buffer value, if its length is a multiple of 20.
pub open spec fn pieces_field(v: BView) -> Option<Seq<HashId>> {
    match bytes_field(v) {
        Some(b) => if b.len() % 20 == 0 { Some(hashes_of_bytes(b)) } else { None },
        None => None,
    }
}

/// The bencode dictionary of an info dictionary: its four fields under
/// their keys.
pub open spec fn info_bview(i: TorrentInfoView) -> BView {
    BView::Dict(Map::empty()
        .insert(key_name(), BView::Bytes(encode_utf8(i.name)))
        .insert(key_piece_length(), BView::Int(i.piece_length as int))
        .insert(key_pieces(), BView::Bytes(bytes_of_hashes(i.pieces)))
        .insert(key_length(), BView::Int(i.length as int)))
}

/// What reading an info dictionary from a bencode value gives. A dictionary
/// needs all four fields (other keys are not read); any key that is not
/// UTF-8, or any of the four fields of the wrong kind, is an invalid field,
/// and that comes before a missing field. A list gives the four fields in
/// order (items after them are not read).
/// The dictionary is read as the decoded map, so a key given twice counts
/// once, with its last value.
pub open spec fn spec_info_of(v: BView) -> Result<TorrentInfoView, TorrentError> {
    match v {
        BView::Dict(m) => {
            let invalid = !(forall|k: Seq<u8>| m.dom().contains(k) ==> valid_utf8(k))
                || (m.dom().contains(key_name()) && text_field(m[key_name()]) is None)
                || (m.dom().contains(key_piece_length()) && usize_field(m[key_piece_length()]) is None)
                || (m.dom().contains(key_pieces()) && pieces_field(m[key_pieces()]) is None)
                || (m.dom().contains(key_length()) && usize_field(m[key_length()]) is None);
            if invalid {
                Err(TorrentError::InvalidField)
            } else if !(m.dom().contains(key_name()) && m.dom().contains(key_piece_length())
                && m.dom().contains(key_pieces()) && m.dom().contains(key_length())) {
                Err(TorrentError::MissingField)
            } else {
                Ok(TorrentInfoView {
                    name: text_field(m[key_name()]).unwrap(),
                    piece_length: usize_field(m[key_piece_length()]).unwrap(),
                    pieces: pieces_field(m[key_pieces()]).unwrap(),
                    length: usize_field(m[key_length()]).unwrap(),
                })
            }
        },
        BView::List(items) => {
            if items.len() < 1 {
                Err(TorrentError::InvalidLength)
            } else if text_field(items[0]) is None {
                Err(TorrentError::InvalidField)
            } else if items.len() < 2 {
                Err(TorrentError::InvalidLength)
            } else if usize_field(items[1]) is None {
                Err(TorrentError::InvalidField)
            } else if items.len() < 3 {
                Err(TorrentError::InvalidLength)
            } else if pieces_field(items[2]) is None {
                Err(TorrentError::InvalidField)
            } else if items.len() < 4 {
                Err(TorrentError::InvalidLength)
            } else if usize_field(items[3]) is None {
                Err(TorrentError::InvalidField)
            } else {
                Ok(TorrentInfoView {
                    name: text_field(items[0]).unwrap(),
                    piece_length: usize_field(items[1]).unwrap(),
                    pieces: pieces_field(items[2]).unwrap(),
                    length: usize_field(items[3]).unwrap(),
                })
            }
        },
        _ => Err(TorrentError::InvalidField),
    }
}

/// An info dictionary read back from its bencode dictionary is the same
/// info dictionary.
pub proof fn lemma_info_roundtrip(i: TorrentInfoView)
    ensures
        spec_info_of(info_bview(i)) == Ok::<TorrentInfoView, TorrentError>(i),
{
    broadcast use vstd::utf8::encode_utf8_valid_utf8, vstd::utf8::encode_utf8_decode_utf8;
    crate::text::lemma_ascii_valid_utf8(key_name());
    crate::text::lemma_ascii_valid_utf8(key_piece_length());
    crate::text::lemma_ascii_valid_utf8(key_pieces());
    crate::text::lemma_ascii_valid_utf8(key_length());
    lemma_bytes_of_hashes_len(i.pieces);
    lemma_hashes_roundtrip(i.pieces);
    assert(key_pieces() != key_length()) by {
        assert(key_pieces()[0] != key_length()[0]);
    }
    assert(key_name() != key_piece_length()) by {
        assert(key_name().len() != key_piece_length().len());
    }
    assert(key_name() != key_pieces()) by {
        assert(key_name().len() != key_pieces().len());
    }
    assert(key_name() != key_length()) by {
        assert(key_name().len() != key_length().len());
    }
    assert(key_piece_length() != key_pieces()) by {
        assert(key_piece_length().len() != key_pieces().len());
    }
    assert(key_piece_length() != key_length()) by {
        assert(key_piece_length().len() != key_length().len());
    }
    let m = match info_bview(i) {
        BView::Dict(m) => m,
        _ => Map::empty(),
    };
    assert forall|k: Seq<u8>| m.dom().contains(k) implies valid_utf8(k) by {
        assert(k == key_name() || k == key_piece_length() || k == key_pieces() || k == key_length());
    }
}

/// Reads hashes from a byte-string value.
fn read_pieces(v: &BencodeValue) -> (res: Option<PiecesHashes>)
    ensures
        match res {
            Some(p) => pieces_field(v@) == Some(p@),
            None => pieces_field(v@) is None,
        },
{
    match read_bytes(v) {
        Some(b) => match PiecesHashes::from_bytes(b.as_slice()) {
            Ok(p) => Some(p),
            Err(_) => None,
        },
        None => None,
    }
}

impl TorrentInfo {
    /// The bencode dictionary of this info dictionary.
    pub fn to_bencode(&self) -> (res: BencodeValue)
        requires
            self.piece_length <= i64::MAX,
            self.length <= i64::MAX,
        ensures
            res@ == info_bview(self@),
    {
        let name_bytes = vstd::slice::slice_to_vec(self.name.as_str().as_bytes());
        let e = vec![
            (vec![110u8, 97, 109, 101], BencodeValue::Bytes(name_bytes)),
            (vec![112u8, 105, 101, 99, 101, 32, 108, 101, 110, 103, 116, 104], BencodeValue::Int(self.piece_length as i64)),
            (vec![112u8, 105, 101, 99, 101, 115], BencodeValue::Bytes(self.pieces.to_bytes())),
            (vec![108u8, 101, 110, 103, 116, 104], BencodeValue::Int(self.length as i64)),
        ];
        proof {
            reveal_with_fuel(entries_view, 5);
            {
                assert(e@[0].0@ =~= key_name());
                assert(e@[1].0@ =~= key_piece_length());
                assert(e@[2].0@ =~= key_pieces());
                assert(e@[3].0@ =~= key_length());
                assert(e@.drop_last().drop_last().drop_last().drop_last() =~= Seq::<(Vec<u8>, BencodeValue)>::empty());
                assert(entries_view(e@) =~= Map::empty()
                    .insert(key_name(), BView::Bytes(encode_utf8(self.name@)))
                    .insert(key_piece_length(), BView::Int(self.piece_length as int))
                    .insert(key_pieces(), BView::Bytes(bytes_of_hashes(self.pieces@)))
                    .insert(key_length(), BView::Int(self.length as int)));
            }
        }
        BencodeValue::Dict(e)
    }

    /// The info hash: the SHA-1 digest of the bencode form.
    pub fn hash(&self) -> (res: HashId)
        requires
            self.piece_length <= i64::MAX,
            self.length <= i64::MAX,
        ensures
            res.0@ == spec_sha1(spec_bencode_encode(info_bview(self@))),
    {
        let encoded = encode(&self.to_bencode());
        HashId(sha1_digest(encoded.as_slice()))
    }

    /// The info hash as `%` and two lower-case hex digits a byte.
    pub fn encoded_hash(&self) -> (res: String)
        requires
            self.piece_length <= i64::MAX,
            self.length <= i64::MAX,
        ensures
            res@ == url_encoded(spec_sha1(spec_bencode_encode(info_bview(self@)))),
    {
        let hashed = self.hash();
        let mut encoded = String::new();
        push_url_encoded(&mut encoded, vstd::array::array_as_slice(&hashed.0));
        encoded
    }

    /// The length of piece `index`: the piece length, except for the last
    /// piece, which holds what is left of the file.
    pub fn calculate_piece_size(&self, index: usize) -> (res: usize)
        requires
            index < self.pieces@.len(),
            self.piece_length * index <= self.length,
        ensures
            res == if index + 1 == self.pieces@.len() {
                (self.length - self.piece_length * index) as usize
            } else {
                self.piece_length
            },
    {
        if index == self.pieces.len() - 1 {
            assert(self.piece_length * index <= self.length);
            self.length - self.piece_length * index
        } else {
            self.piece_length
        }
    }

    /// Reads an info dictionary from a bencode value.
    pub fn from_bencode(v: &BencodeValue) -> (res: Result<TorrentInfo, TorrentError>)
        ensures
            match res {
                Ok(i) => spec_info_of(v@) == Ok::<TorrentInfoView, TorrentError>(i@),
                Err(e) => spec_info_of(v@) == Err::<TorrentInfoView, TorrentError>(e),
            },
    {
        match v {
            BencodeValue::Dict(entries) => {
                let ghost m = entries_view(entries@);
                assert(v@ == BView::Dict(m));
                let keys_ok = all_keys_utf8(entries);
                let k_name: [u8; 4] = [110, 97, 109, 101];
                let k_piece_length: [u8; 12] = [112, 105, 101, 99, 101, 32, 108, 101, 110, 103, 116, 104];
                let k_pieces: [u8; 6] = [112, 105, 101, 99, 101, 115];
                let k_length: [u8; 6] = [108, 101, 110, 103, 116, 104];
                assert(k_name@ =~= key_name());
                assert(k_piece_length@ =~= key_piece_length());
                assert(k_pieces@ =~= key_pieces());
                assert(k_length@ =~= key_length());
                let name: Option<Option<String>> = match dict_get(entries, vstd::array::array_as_slice(&k_name)) {
                    Some(x) => Some(read_text(x)),
                    None => None,
                };
                let piece_length: Option<Option<usize>> = match dict_get(entries, vstd::array::array_as_slice(&k_piece_length)) {
                    Some(x) => Some(read_usize(x)),
                    None => None,
                };
                let pieces: Option<Option<PiecesHashes>> = match dict_get(entries, vstd::array::array_as_slice(&k_pieces)) {
                    Some(x) => Some(read_pieces(x)),
                    None => None,
                };
                let length: Option<Option<usize>> = match dict_get(entries, vstd::array::array_as_slice(&k_length)) {
                    Some(x) => Some(read_usize(x)),
                    None => None,
                };
                let invalid = !keys_ok || (name.is_some() && name.as_ref().unwrap().is_none())
                    || (piece_length.is_some() && piece_length.unwrap().is_none())
                    || (pieces.is_some() && pieces.as_ref().unwrap().is_none())
                    || (length.is_some() && length.unwrap().is_none());
                if invalid {
                    return Err(TorrentError::InvalidField);
                }
                match (name, piece_length, pieces, length) {
                    (Some(Some(name)), Some(Some(piece_length)), Some(Some(pieces)), Some(Some(length))) => {
                        Ok(TorrentInfo { name, piece_length, pieces, length })
                    },
                    _ => Err(TorrentError::MissingField),
                }
            },
            BencodeValue::List(items) => {
                proof {
                    crate::json::lemma_list_view(items@);
                }
                assert(v@ == BView::List(crate::bencode::list_view(items@)));
                if items.len() < 1 {
                    return Err(TorrentError::InvalidLength);
                }
                let name = match read_text(&items[0]) {
                    Some(x) => x,
                    None => {
                        return Err(TorrentError::InvalidField);
                    },
                };
                if items.len() < 2 {
                    return Err(TorrentError::InvalidLength);
                }
                let piece_length = match read_usize(&items[1]) {
                    Some(x) => x,
                    None => {
                        return Err(TorrentError::InvalidField);
                    },
                };
                if items.len() < 3 {
                    return Err(TorrentError::InvalidLength);
                }
                let pieces = match read_pieces(&items[2]) {
                    Some(x) => x,
                    None => {
                        return Err(TorrentError::InvalidField);
                    },
                };
                if items.len() < 4 {
                    return Err(TorrentError::InvalidLength);
                }
                let length = match read_usize(&items[3]) {
                    Some(x) => x,
                    None => {
                        return Err(TorrentError::InvalidField);
                    },
                };
                Ok(TorrentInfo { name, piece_length, pieces, length })
            },
            _ => Err(TorrentError::InvalidField),
        }
    }
}

// ----------------- TORRENT FILES -----------------

/// The key "announce".
pub open spec fn key_announce() -> Seq<u8> {
    seq![97u8, 110, 110, 111, 117, 110, 99, 101]
}

/// The key "info".
pub open spec fn key_info() -> Seq<u8> {
    seq![105u8, 110, 102, 111]
}

/// A torrent file as a value.
pub ghost struct TorrentView {
    pub announce: Seq<char>,
    pub info: TorrentInfoView,
}

impl View for Torrent {
    type V = TorrentView;

    open spec fn view(&self) -> TorrentView {
        TorrentView { announce: self.announce@, info: self.info@ }
    }
}

/// What reading a torrent file from a bencode value gives. A dictionary
/// needs "announce" (text) and "info" (an info dictionary); other keys are
/// not read. A key that is not UTF-8, or an announce that is not text, is an
/// invalid field; then what reading the info dictionary gives; then a missing
/// field. A list gives the two fields in order.
/// The dictionary is read as the decoded map, so a key given twice counts
/// once, with its last value.
pub open spec fn spec_torrent_of(v: BView) -> Result<TorrentView, TorrentError> {
    match v {
        BView::Dict(m) => if !crate::bencode::keys_utf8(m)
            || crate::bencode::field_invalid(m, key_announce(), |b: BView| text_field(b)) {
            Err(TorrentError::InvalidField)
        } else if m.dom().contains(key_info()) && spec_info_of(m[key_info()]) is Err {
            Err(spec_info_of(m[key_info()])->Err_0)
        } else if !(m.dom().contains(key_announce()) && m.dom().contains(key_info())) {
            Err(TorrentError::MissingField)
        } else {
            Ok(TorrentView { announce: text_field(m[key_announce()]).unwrap(), info: spec_info_of(m[key_info()])->Ok_0 })
        },
        BView::List(items) => if items.len() < 1 {
            Err(TorrentError::InvalidLength)
        } else if text_field(items[0]) is None {
            Err(TorrentError::InvalidField)
        } else if items.len() < 2 {
            Err(TorrentError::InvalidLength)
        } else if spec_info_of(items[1]) is Err {
            Err(spec_info_of(items[1])->Err_0)
        } else {
            Ok(TorrentView { announce: text_field(items[0]).unwrap(), info: spec_info_of(items[1])->Ok_0 })
        },
        _ => Err(TorrentError::InvalidField),
    }
}

/// What reading a torrent file from its bytes gives: bytes that do not
/// start with a bencode value are an error.
pub open spec fn spec_torrent_file(data: Seq<u8>) -> Result<TorrentView, TorrentError> {
    match crate::bencode::spec_bencode_decode(data) {
        None => Err(TorrentError::Bencode),
        Some(v) => spec_torrent_of(v),
    }
}

impl Torrent {
    /// Reads a torrent file from a bencode value.
    pub fn from_bencode(v: &BencodeValue) -> (res: Result<Torrent, TorrentError>)
        ensures
            match res {
                Ok(t) => spec_torrent_of(v@) == Ok::<TorrentView, TorrentError>(t@),
                Err(e) => spec_torrent_of(v@) == Err::<TorrentView, TorrentError>(e),
            },
    {
        match v {
            BencodeValue::Dict(entries) => {
                let ghost m = entries_view(entries@);
                assert(v@ == BView::Dict(m));
                let keys_ok = all_keys_utf8(entries);
                let k_announce: [u8; 8] = [97, 110, 110, 111, 117, 110, 99, 101];
                let k_info: [u8; 4] = [105, 110, 102, 111];
                assert(k_announce@ =~= key_announce());
                assert(k_info@ =~= key_info());
                let announce: Option<Option<String>> = match dict_get(entries, vstd::array::array_as_slice(&k_announce)) {
                    Some(x) => Some(read_text(x)),
                    None => None,
                };
                if !keys_ok || (announce.is_some() && announce.as_ref().unwrap().is_none()) {
                    return Err(TorrentError::InvalidField);
                }
                let info = match dict_get(entries, vstd::array::array_as_slice(&k_info)) {
                    Some(x) => match TorrentInfo::from_bencode(x) {
                        Ok(i) => Some(i),
                        Err(e) => {
                            return Err(e);
                        },
                    },
                    None => None,
                };
                match (announce, info) {
                    (Some(Some(announce)), Some(info)) => Ok(Torrent { announce, info }),
                    _ => Err(TorrentError::MissingField),
                }
            },
            BencodeValue::List(items) => {
                proof {
                    crate::json::lemma_list_view(items@);
                }
                assert(v@ == BView::List(crate::bencode::list_view(items@)));
                if items.len() < 1 {
                    return Err(TorrentError::InvalidLength);
                }
                let announce = match read_text(&items[0]) {
                    Some(x) => x,
                    None => {
                        return Err(TorrentError::InvalidField);
                    },
                };
                if items.len() < 2 {
                    return Err(TorrentError::InvalidLength);
                }
                let info = TorrentInfo::from_bencode(&items[1])?;
                Ok(Torrent { announce, info })
            },
            _ => Err(TorrentError::InvalidField),
        }
    }

    /// Reads a torrent file from its bytes.
    pub fn from_bytes(data: &[u8]) -> (res: Result<Torrent, TorrentError>)
        ensures
            match res {
                Ok(t) => spec_torrent_file(data@) == Ok::<TorrentView, TorrentError>(t@),
                Err(e) => spec_torrent_file(data@) == Err::<TorrentView, TorrentError>(e),
            },
    {
        match crate::bencode::decode(data) {
            Ok(v) => Torrent::from_bencode(&v),
            Err(e) => Err(e),
        }
    }
}

} // verus!
