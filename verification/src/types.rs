//! Shared types: hashes, peer ids and the library's error type.

use vstd::prelude::*;
use vstd::string::StringExecFns;

verus! {

/// A 20-byte SHA-1 hash or peer id.
pub type HashType = [u8; 20];

/// A peer id is a 20-byte identifier.
pub type PeerId = HashType;

/// Everything that can go wrong in the library.
#[derive(Debug, Clone, Copy, PartialEq, Eq, Structural)]
pub enum TorrentError {
    /// A message tag byte that names no known message.
    UnknownTag(u8),
    /// The input ended before the announced data.
    UnexpectedEnd,
    /// A handshake frame whose size is not the handshake size.
    InvalidHandshakeSize(usize),
    /// A frame whose announced length is above the maximum.
    MessageTooLong(usize),
    /// A frame of another kind than the one expected.
    UnexpectedFrame,
    /// A compact peer list whose length is not a multiple of six.
    InvalidPeersLength(usize),
    /// Bytes that do not start with a bencode value.
    Bencode,
    /// Bytes that are not valid UTF-8 where text is expected.
    InvalidUtf8,
    /// A record whose field has the wrong kind or range.
    InvalidField,
    /// A record that lacks a field that has no default.
    MissingField,
    /// A record given as a list of the wrong length.
    InvalidLength,
    /// Text that is not an even number of hex digits.
    InvalidHex,
    /// A hash of another length than 20 bytes.
    InvalidHashLength(usize),
    /// A handshake that carries this client's own peer id.
    OwnPeerId,
    /// A handshake whose protocol name length is not 19.
    InvalidProtocolLength,
    /// A handshake whose protocol is not "BitTorrent protocol".
    InvalidProtocol,
    /// A message with another tag than the one expected.
    UnexpectedTag,
    /// A message whose payload is not the one expected.
    UnexpectedPayload,
    /// A piece block for another piece, offset or length than requested.
    PieceMismatch,
    /// Piece data whose hash is not the piece's hash.
    HashMismatch,
    /// Text that is not a URL.
    InvalidUrl,
    /// A magnet link whose exact topic is not a BitTorrent info hash.
    InvalidInfoHash,
}

/// `hex::FromHexError`, known to Verus as an opaque type.
#[verifier::external_type_specification]
#[verifier::external_body]
pub struct ExFromHexError(hex::FromHexError);

/// The lower-case hex digit of a value below 16.
pub open spec fn hex_digit(n: nat) -> char {
    if n < 10 { (48 + n) as char } else { (87 + n) as char }
}

/// The lower-case hex text of some bytes, two digits a byte.
pub open spec fn hex_text(b: Seq<u8>) -> Seq<char>
    decreases b.len(),
{
    if b.len() == 0 {
        Seq::empty()
    } else {
        hex_text(b.drop_last()) + seq![hex_digit((b.last() / 16) as nat), hex_digit((b.last() % 16) as nat)]
    }
}

/// The value of a hex digit of either case.
pub open spec fn hex_value(c: char) -> Option<nat> {
    if '0' <= c && c <= '9' {
        Some((c as nat - 48) as nat)
    } else if 'a' <= c && c <= 'f' {
        Some((c as nat - 87) as nat)
    } else if 'A' <= c && c <= 'F' {
        Some((c as nat - 55) as nat)
    } else {
        None
    }
}

/// The bytes that hex text stands for: an even number of hex digits, two a
/// byte, high digit first.
pub open spec fn hex_bytes(s: Seq<char>) -> Option<Seq<u8>> {
    if s.len() % 2 == 0 && forall|i: int| 0 <= i < s.len() ==> #[trigger] hex_value(s[i]) is Some {
        Some(Seq::new(s.len() / 2, |i: int| (hex_value(s[2 * i]).unwrap() * 16 + hex_value(s[2 * i + 1]).unwrap()) as u8))
    } else {
        None
    }
}

/// The hex text of some bytes has two digits a byte: the high digit, then
/// the low one.
pub proof fn lemma_hex_text_digits(b: Seq<u8>)
    ensures
        hex_text(b).len() == 2 * b.len(),
        forall|i: int| #![trigger b[i]] 0 <= i < b.len() ==> hex_text(b)[2 * i] == hex_digit((b[i] / 16) as nat)
            && hex_text(b)[2 * i + 1] == hex_digit((b[i] % 16) as nat),
    decreases b.len(),
{
    if b.len() > 0 {
        let front = b.drop_last();
        lemma_hex_text_digits(front);
        assert forall|i: int| #![trigger b[i]] 0 <= i < b.len() implies hex_text(b)[2 * i] == hex_digit((b[i] / 16) as nat)
            && hex_text(b)[2 * i + 1] == hex_digit((b[i] % 16) as nat) by {
            if i < b.len() - 1 {
                assert(front[i] == b[i]);
                assert(hex_text(front)[2 * i] == hex_digit((front[i] / 16) as nat));
            }
        }
    }
}

/// A hex digit reads back as its value.
pub proof fn lemma_hex_digit_value(n: nat)
    requires
        n < 16,
    ensures
        hex_value(hex_digit(n)) == Some(n),
{
    let c = hex_digit(n);
    if n < 10 {
        assert(c as nat == 48 + n);
    } else {
        assert(c as nat == 87 + n);
    }
}

/// Hex text reads back as the bytes it was written from.
pub proof fn lemma_hex_roundtrip(b: Seq<u8>)
    ensures
        hex_bytes(hex_text(b)) == Some(b),
{
    let s = hex_text(b);
    lemma_hex_text_digits(b);
    assert forall|k: int| 0 <= k < s.len() implies #[trigger] hex_value(s[k]) is Some by {
        let i = k / 2;
        assert(0 <= i < b.len());
        assert(s[2 * i] == hex_digit((b[i] / 16) as nat) && s[2 * i + 1] == hex_digit((b[i] % 16) as nat));
        lemma_hex_digit_value((b[i] / 16) as nat);
        lemma_hex_digit_value((b[i] % 16) as nat);
        if k % 2 == 0 {
            assert(k == 2 * i);
        } else {
            assert(k == 2 * i + 1);
        }
    }
    let r = hex_bytes(s).unwrap();
    assert forall|i: int| 0 <= i < b.len() implies #[trigger] r[i] == b[i] by {
        lemma_hex_digit_value((b[i] / 16) as nat);
        lemma_hex_digit_value((b[i] % 16) as nat);
        assert(s[2 * i] == hex_digit((b[i] / 16) as nat));
        assert((b[i] / 16) * 16 + b[i] % 16 == b[i]);
    }
    assert(r =~= b);
}

/// The lower-case hex text of `data` (`hex::encode`): two digits a byte,
/// high digit first.
#[verifier::external_body]
pub(crate) fn hex_encode(data: &[u8]) -> (res: String)
    ensures
        res@ == hex_text(data@),
{
    hex::encode(data)
}

/// The bytes that hex text stands for (`hex::decode`, either case): two
/// digits a byte, high digit first; text that is not an even number of hex
/// digits is an error.
#[verifier::external_body]
fn hex_decode(text: &str) -> (res: Result<Vec<u8>, hex::FromHexError>)
    ensures
        res is Ok <==> hex_bytes(text@) is Some,
        res matches Ok(b) ==> Some(b@) == hex_bytes(text@),
{
    hex::decode(text)
}

/// Each byte as `%` and two lower-case hex digits.
pub open spec fn url_encoded(b: Seq<u8>) -> Seq<char>
    decreases b.len(),
{
    if b.len() == 0 {
        Seq::empty()
    } else {
        url_encoded(b.drop_last()) + seq!['%'] + hex_text(seq![b.last()])
    }
}

/// Appends the url encoding of `data` to `out`.
pub fn push_url_encoded(out: &mut String, data: &[u8])
    ensures
        final(out)@ == old(out)@ + url_encoded(data@),
{
    let ghost start = out@;
    let mut i: usize = 0;
    while i < data.len()
        invariant
            i <= data@.len(),
            out@ == start + url_encoded(data@.subrange(0, i as int)),
        decreases data@.len() - i,
    {
        crate::text::push_char(out, '%');
        let one: [u8; 1] = [data[i]];
        let digits = hex_encode(vstd::array::array_as_slice(&one));
        out.append(digits.as_str());
        proof {
            let next = data@.subrange(0, i + 1);
            assert(next.drop_last() =~= data@.subrange(0, i as int));
            assert(one@ =~= seq![next.last()]);
        }
        i = i + 1;
        assert(out@ =~= start + url_encoded(data@.subrange(0, i as int)));
    }
    assert(data@.subrange(0, data@.len() as int) =~= data@);
}

/// A 20-byte hash (an info hash or a piece hash).
#[derive(Debug, Clone, Copy, PartialEq, Eq, Hash)]
pub struct HashId(pub HashType);

/// The all-zero hash.
pub open spec fn zero_hash() -> HashId {
    HashId(crate::wire::array_of::<20>(Seq::new(20, |i: int| 0u8)))
}

impl HashId {
    /// The all-zero hash.
    pub fn default() -> (res: Self)
        ensures
            res == zero_hash(),
            res.0@ == Seq::new(20, |i: int| 0u8),
    {
        let res = HashId([0u8; 20]);
        proof {
            assert(res.0@ =~= Seq::new(20, |i: int| 0u8));
            crate::wire::lemma_array_of::<20>(res.0);
        }
        res
    }

    /// The hash that 40 hex digits stand for; other text is an error.
    pub fn from_hex(hex: &str) -> (res: Result<Self, TorrentError>)
        ensures
            match hex_bytes(hex@) {
                None => res == Err::<HashId, TorrentError>(TorrentError::InvalidHex),
                Some(b) => if b.len() == 20 {
                    res is Ok && res->Ok_0.0@ == b
                } else {
                    res == Err::<HashId, TorrentError>(TorrentError::InvalidHashLength(b.len() as usize))
                },
            },
    {
        let bytes = match hex_decode(hex) {
            Ok(b) => b,
            Err(_) => {
                return Err(TorrentError::InvalidHex);
            },
        };
        if bytes.len() != 20 {
            return Err(TorrentError::InvalidHashLength(bytes.len()));
        }
        let hash: [u8; 20] = crate::wire::take_array(bytes.as_slice(), 0);
        assert(bytes@.subrange(0, 20) =~= bytes@);
        Ok(HashId(hash))
    }

    /// The hash as `%` and two lower-case hex digits a byte.
    pub fn url_encode(&self) -> (res: String)
        ensures
            res@ == url_encoded(self.0@),
    {
        let mut encoded = String::new();
        push_url_encoded(&mut encoded, vstd::array::array_as_slice(&self.0));
        encoded
    }
}

} // verus!
