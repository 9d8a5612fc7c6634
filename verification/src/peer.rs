//! Peers: their addresses, the compact peer list of a tracker, the frame
//! codec of a connection and the state of a connection.

use vstd::prelude::*;
use vstd::string::StringSliceAdditionalSpecFns;
use crate::messages::{
    frame_bytes, frame_deserialize, frame_length, handshake_bytes, handshake_of_bytes,
    lemma_frame_roundtrip, protocol_name, ExtensionHandshakeMessage, ExtensionPayload,
    ExtensionPieceRequestMessage, ExtensionPieceRequestView, MessageSerialization, MessageTag,
    PeerExtMessageBuffer, PeerHandshake, PeerMessage, PeerMessageBuffer, PieceMessage, PieceRequestMessage,
    HANDSHAKE_LENGTH,
};
use crate::text::{
    all_digits, decimal, digit_char, digits_value, find_byte, first_index, is_digit, lemma_first_index,
    parse_digits, push_char, push_decimal,
};
use vstd::utf8::encode_utf8;
use crate::types::{TorrentError, PeerId};
use crate::wire::{append_bytes, array_of, be_bytes, be_value, lemma_array_of, lemma_array_of_seq, lemma_be_roundtrip, take_array, u32_from_be};

verus! {

// ----------------- CORE PEER STRUCTS -----------------

/// A peer's IPv4 address and port.
#[derive(Debug, Clone, Copy, PartialEq, Eq)]
pub struct Peer {
    pub ip: [u8; 4],
    pub port: u16,
}

/// A list of peers.
#[derive(Debug, Clone)]
pub struct Peers(Vec<Peer>);

impl View for Peers {
    type V = Seq<Peer>;

    closed spec fn view(&self) -> Seq<Peer> {
        self.0@
    }
}

/// The peer that six bytes of a compact peer list stand for: four address
/// bytes, then the port big-endian.
pub open spec fn compact_peer(b: Seq<u8>) -> Peer {
    Peer { ip: array_of::<4>(b.subrange(0, 4)), port: (b[4] * 256 + b[5]) as u16 }
}

/// The peers of a compact peer list, six bytes each.
pub open spec fn compact_peers(b: Seq<u8>) -> Seq<Peer> {
    Seq::new(b.len() / 6, |i: int| compact_peer(b.subrange(6 * i, 6 * i + 6)))
}

/// In a compact peer list every peer takes six bytes, in order: the peer
/// at `i` has the address bytes at `6 * i .. 6 * i + 4` and the port in the
/// next two bytes, high byte first.
pub proof fn lemma_compact_layout(b: Seq<u8>, i: int)
    requires
        0 <= i < b.len() / 6,
    ensures
        compact_peers(b).len() == b.len() / 6,
        compact_peers(b)[i].ip@ == b.subrange(6 * i, 6 * i + 4),
        compact_peers(b)[i].port == b[6 * i + 4] * 256 + b[6 * i + 5],
{
    assert(6 * i + 6 <= b.len()) by (nonlinear_arith)
        requires 0 <= i < b.len() / 6;
    let chunk = b.subrange(6 * i, 6 * i + 6);
    assert(chunk.subrange(0, 4) =~= b.subrange(6 * i, 6 * i + 4));
    lemma_array_of_seq::<4>(chunk.subrange(0, 4));
    assert(chunk[4] == b[6 * i + 4]);
    assert(chunk[5] == b[6 * i + 5]);
}

impl Peers {
    /// The peers of a compact peer list; a length that is not a multiple of
    /// six is an error.
    pub fn from_compact(bytes: &[u8]) -> (res: Result<Peers, TorrentError>)
        ensures
            match res {
                Ok(peers) => bytes@.len() % 6 == 0 && peers@ == compact_peers(bytes@),
                Err(e) => bytes@.len() % 6 != 0 && e == TorrentError::InvalidPeersLength(bytes@.len() as usize),
            },
    {
        if bytes.len() % 6 != 0 {
            return Err(TorrentError::InvalidPeersLength(bytes.len()));
        }
        let mut peers: Vec<Peer> = Vec::new();
        let count = bytes.len() / 6;
        let mut i: usize = 0;
        while i < count
            invariant
                count == bytes@.len() / 6,
                bytes@.len() == bytes.len(),
                bytes@.len() % 6 == 0,
                i <= count,
                peers@ =~= compact_peers(bytes@).subrange(0, i as int),
            decreases count - i,
        {
            assert(6 * i + 6 <= bytes@.len()) by (nonlinear_arith)
                requires i < count, count == bytes@.len() / 6;
            let ip: [u8; 4] = take_array(bytes, 6 * i);
            let port: u16 = (bytes[6 * i + 4] as u16) * 256 + (bytes[6 * i + 5] as u16);
            let peer = Peer { ip, port };
            proof {
                let chunk = bytes@.subrange(6 * i, 6 * i + 6);
                assert(chunk.subrange(0, 4) =~= bytes@.subrange(6 * i, 6 * i + 4));
                lemma_array_of::<4>(ip);
                assert(peer == compact_peer(chunk));
            }
            peers.push(peer);
            i = i + 1;
        }
        Ok(Peers(peers))
    }

    /// The number of peers.
    pub fn len(&self) -> (res: usize)
        ensures
            res == self@.len(),
    {
        self.0.len()
    }

    /// The peer at position `i`.
    pub fn get(&self, i: usize) -> (res: &Peer)
        requires
            i < self@.len(),
        ensures
            *res == self@[i as int],
    {
        &self.0[i]
    }

    /// The peers, in order.
    pub fn as_slice(&self) -> (res: &[Peer])
        ensures
            res@ == self@,
    {
        self.0.as_slice()
    }
}

/// Whether `s` is a decimal octet as an IPv4 address writes it: one to
/// three digits, no leading zero, at most 255.
pub open spec fn octet_ok(s: Seq<u8>) -> bool {
    &&& 1 <= s.len() <= 3
    &&& all_digits(s)
    &&& (s.len() > 1 ==> s[0] != 48)
    &&& digits_value(s) <= 255
}

/// The `n` dot-separated octets of `s`, if `s` is exactly that.
pub open spec fn parse_octets(s: Seq<u8>, n: nat) -> Option<Seq<u8>>
    decreases n,
{
    let d = first_index(s, 46);
    if n <= 1 {
        if d == s.len() && octet_ok(s) { Some(seq![digits_value(s) as u8]) } else { None }
    } else if d < s.len() && octet_ok(s.subrange(0, d as int)) {
        match parse_octets(s.subrange(d + 1 as int, s.len() as int), (n - 1) as nat) {
            Some(rest) => Some(seq![digits_value(s.subrange(0, d as int)) as u8] + rest),
            None => None,
        }
    } else {
        None
    }
}

/// The octets read are as many as asked for.
pub proof fn lemma_parse_octets_len(s: Seq<u8>, n: nat)
    requires
        n >= 1,
        parse_octets(s, n) is Some,
    ensures
        parse_octets(s, n).unwrap().len() == n,
    decreases n,
{
    if n > 1 {
        let d = first_index(s, 46);
        lemma_parse_octets_len(s.subrange(d + 1 as int, s.len() as int), (n - 1) as nat);
    }
}

/// The port that `s` writes in decimal: an optional `+`, then at least one
/// digit, at most 65535.
pub open spec fn parse_port(s: Seq<u8>) -> Option<u16> {
    let t = if s.len() > 0 && s[0] == 43 { s.drop_first() } else { s };
    if t.len() >= 1 && all_digits(t) && digits_value(t) <= 65535 {
        Some(digits_value(t) as u16)
    } else {
        None
    }
}

/// The address part (before the first `:`) of "address:port" text.
pub open spec fn address_part(s: Seq<u8>) -> Seq<u8> {
    s.subrange(0, first_index(s, 58) as int)
}

/// The port part (between the first and any second `:`) of
/// "address:port" text.
pub open spec fn port_part(s: Seq<u8>) -> Seq<u8> {
    let rest = s.subrange(first_index(s, 58) + 1 as int, s.len() as int);
    rest.subrange(0, first_index(rest, 58) as int)
}

/// The peer that "address:port" text names, if it names one.
pub open spec fn parse_peer(s: Seq<u8>) -> Option<Peer> {
    if first_index(s, 58) < s.len() {
        match (parse_octets(address_part(s), 4), parse_port(port_part(s))) {
            (Some(ip), Some(port)) => Some(Peer { ip: array_of::<4>(ip), port }),
            _ => None,
        }
    } else {
        None
    }
}

/// The "a.b.c.d:port" text of a peer.
pub open spec fn peer_address_text(p: Peer) -> Seq<char> {
    decimal(p.ip[0] as nat) + seq!['.'] + decimal(p.ip[1] as nat) + seq!['.'] + decimal(p.ip[2] as nat)
        + seq!['.'] + decimal(p.ip[3] as nat) + seq![':'] + decimal(p.port as nat)
}

/// The bytes of the decimal digits of `n`, with no leading zeros.
pub open spec fn decimal_bytes(n: nat) -> Seq<u8>
    decreases n,
{
    if n < 10 {
        seq![(48 + n) as u8]
    } else {
        decimal_bytes(n / 10).push((48 + n % 10) as u8)
    }
}

/// The UTF-8 bytes of two texts one after the other are the bytes of the
/// first, then those of the second.
pub proof fn lemma_encode_utf8_concat(a: Seq<char>, b: Seq<char>)
    ensures
        encode_utf8(a + b) == encode_utf8(a) + encode_utf8(b),
    decreases a.len(),
{
    if a.len() == 0 {
        assert(a + b =~= b);
        assert(encode_utf8(a) =~= Seq::<u8>::empty());
        assert(encode_utf8(b) =~= Seq::<u8>::empty() + encode_utf8(b));
    } else {
        assert((a + b).drop_first() =~= a.drop_first() + b);
        assert((a + b)[0] == a[0]);
        lemma_encode_utf8_concat(a.drop_first(), b);
        assert(encode_utf8(a + b) =~= encode_utf8(a) + encode_utf8(b));
    }
}

/// An ASCII character is one byte of UTF-8: its code.
pub proof fn lemma_encode_ascii_char(c: char)
    requires
        (c as u32) < 128,
    ensures
        encode_utf8(seq![c]) == seq![(c as u32) as u8],
{
    let v = c as u32;
    assert((v & 0x7f) == v) by (bit_vector)
        requires v < 128;
    assert(seq![c].drop_first() =~= Seq::<char>::empty());
    assert(encode_utf8(Seq::<char>::empty()) =~= Seq::<u8>::empty());
    assert(vstd::utf8::encode_scalar(v) == seq![(v & 0x7f) as u8]);
    assert(encode_utf8(seq![c]) == vstd::utf8::encode_scalar(v) + encode_utf8(Seq::<char>::empty()));
    assert(encode_utf8(seq![c]) =~= seq![(c as u32) as u8]);
}

/// The decimal text of `n` as bytes: digits, no leading zero, as many as
/// `n` needs, standing for `n`.
pub proof fn lemma_decimal_bytes(n: nat)
    ensures
        encode_utf8(decimal(n)) == decimal_bytes(n),
        decimal_bytes(n).len() >= 1,
        all_digits(decimal_bytes(n)),
        digits_value(decimal_bytes(n)) == n,
        n >= 1 ==> decimal_bytes(n)[0] != 48,
        decimal_bytes(n).len() > 1 ==> n >= 10,
        n < 1000 ==> decimal_bytes(n).len() <= 3,
    decreases n,
{
    if n < 10 {
        lemma_encode_ascii_char(digit_char(n));
        assert(digit_char(n) as u32 == 48 + n);
        assert(all_digits(decimal_bytes(n)));
        assert(decimal_bytes(n).drop_last() =~= Seq::<u8>::empty());
        assert(decimal_bytes(n).last() == (48 + n) as u8);
        assert(digits_value(Seq::<u8>::empty()) == 0);
    } else {
        let m = n / 10;
        let d = digit_char(n % 10);
        lemma_decimal_bytes(m);
        lemma_encode_ascii_char(d);
        assert(d as u32 == 48 + n % 10);
        assert(decimal(n) == decimal(m).push(d));
        assert(decimal(m).push(d) =~= decimal(m) + seq![d]);
        lemma_encode_utf8_concat(decimal(m), seq![d]);
        let b = decimal_bytes(n);
        assert(b =~= decimal_bytes(m) + seq![(48 + n % 10) as u8]);
        assert(b.drop_last() =~= decimal_bytes(m));
        assert(all_digits(b)) by {
            assert forall|i: int| 0 <= i < b.len() implies is_digit(#[trigger] b[i]) by {
                if i < b.len() - 1 {
                    assert(b[i] == decimal_bytes(m)[i]);
                }
            }
        }
        assert(digits_value(b) == m * 10 + n % 10);
        assert(b[0] == decimal_bytes(m)[0]);
        assert(m < 1000 ==> decimal_bytes(m).len() <= 3);
        if n < 1000 {
            assert(m < 100);
            if m >= 10 {
                lemma_decimal_bytes(m / 10);
                assert(m / 10 < 10);
                assert(decimal_bytes(m).len() == decimal_bytes(m / 10).len() + 1);
            }
        }
    }
}

/// The first `c` in `a + b`, where `a` holds no `c`, is that of `b`, after
/// `a`.
pub proof fn lemma_first_index_concat(a: Seq<u8>, b: Seq<u8>, c: u8)
    requires
        forall|i: int| 0 <= i < a.len() ==> a[i] != c,
    ensures
        first_index(a + b, c) == a.len() + first_index(b, c),
    decreases a.len(),
{
    if a.len() == 0 {
        assert(a + b =~= b);
    } else {
        assert((a + b).drop_first() =~= a.drop_first() + b);
        assert((a + b)[0] == a[0]);
        lemma_first_index_concat(a.drop_first(), b, c);
    }
}

/// A run of digits holds no `.` and no `:`.
proof fn lemma_digits_no_separators(d: Seq<u8>)
    requires
        all_digits(d),
    ensures
        forall|i: int| 0 <= i < d.len() ==> d[i] != 46 && d[i] != 58,
{
    assert forall|i: int| 0 <= i < d.len() implies d[i] != 46 && d[i] != 58 by {
        assert(is_digit(d[i]));
    }
}

/// The decimal octets of a byte read back as the byte.
proof fn lemma_octet_text(n: u8)
    ensures
        octet_ok(decimal_bytes(n as nat)),
        digits_value(decimal_bytes(n as nat)) as u8 == n,
        forall|i: int| 0 <= i < decimal_bytes(n as nat).len() ==> decimal_bytes(n as nat)[i] != 46
            && decimal_bytes(n as nat)[i] != 58,
{
    lemma_decimal_bytes(n as nat);
    lemma_digits_no_separators(decimal_bytes(n as nat));
}

/// Reading octets from an octet, a dot and more text: the octet, then what
/// reading the rest gives.
proof fn lemma_parse_octets_step(d: Seq<u8>, rest: Seq<u8>, n: nat)
    requires
        n >= 2,
        octet_ok(d),
        forall|i: int| 0 <= i < d.len() ==> d[i] != 46,
    ensures
        parse_octets(d + seq![46u8] + rest, n) == match parse_octets(rest, (n - 1) as nat) {
            Some(r) => Some(seq![digits_value(d) as u8] + r),
            None => None,
        },
{
    let s = d + seq![46u8] + rest;
    assert(s =~= d + (seq![46u8] + rest));
    lemma_first_index_concat(d, seq![46u8] + rest, 46);
    assert((seq![46u8] + rest)[0] == 46);
    assert(s.subrange(0, d.len() as int) =~= d);
    assert(s.subrange(d.len() + 1 as int, s.len() as int) =~= rest);
}

/// Reading one octet from the whole of an octet's text.
proof fn lemma_parse_octets_last(d: Seq<u8>)
    requires
        octet_ok(d),
        forall|i: int| 0 <= i < d.len() ==> d[i] != 46,
    ensures
        parse_octets(d, 1) == Some(seq![digits_value(d) as u8]),
{
    lemma_first_index_concat(d, Seq::empty(), 46);
    assert(d + Seq::<u8>::empty() =~= d);
}

/// The bytes of the address text of a peer: its octets and port in
/// decimal, with dots and a colon.
pub open spec fn peer_address_bytes(p: Peer) -> Seq<u8> {
    decimal_bytes(p.ip[0] as nat) + seq![46u8] + (decimal_bytes(p.ip[1] as nat) + seq![46u8]
        + (decimal_bytes(p.ip[2] as nat) + seq![46u8] + decimal_bytes(p.ip[3] as nat))) + (seq![58u8]
        + decimal_bytes(p.port as nat))
}

/// The UTF-8 bytes of a text, a separator and more text.
proof fn lemma_encode_joined(a: Seq<char>, sep: char, rest: Seq<char>)
    requires
        (sep as u32) < 128,
    ensures
        encode_utf8(a + (seq![sep] + rest)) == encode_utf8(a) + (seq![(sep as u32) as u8] + encode_utf8(rest)),
{
    lemma_encode_ascii_char(sep);
    lemma_encode_utf8_concat(seq![sep], rest);
    lemma_encode_utf8_concat(a, seq![sep] + rest);
}

/// The address text of a peer is ASCII: these are its bytes.
#[verifier::spinoff_prover]
#[verifier::rlimit(40)]
proof fn lemma_peer_address_bytes(p: Peer)
    ensures
        encode_utf8(peer_address_text(p)) == peer_address_bytes(p),
{
    let t0 = decimal(p.ip[0] as nat);
    let t1 = decimal(p.ip[1] as nat);
    let t2 = decimal(p.ip[2] as nat);
    let t3 = decimal(p.ip[3] as nat);
    let tp = decimal(p.port as nat);
    let d0 = decimal_bytes(p.ip[0] as nat);
    let d1 = decimal_bytes(p.ip[1] as nat);
    let d2 = decimal_bytes(p.ip[2] as nat);
    let d3 = decimal_bytes(p.ip[3] as nat);
    let dp = decimal_bytes(p.port as nat);
    assert(encode_utf8(t0) == d0) by { lemma_decimal_bytes(p.ip[0] as nat); }
    assert(encode_utf8(t1) == d1) by { lemma_decimal_bytes(p.ip[1] as nat); }
    assert(encode_utf8(t2) == d2) by { lemma_decimal_bytes(p.ip[2] as nat); }
    assert(encode_utf8(t3) == d3) by { lemma_decimal_bytes(p.ip[3] as nat); }
    assert(encode_utf8(tp) == dp) by { lemma_decimal_bytes(p.port as nat); }
    let r3 = t3 + (seq![':'] + tp);
    let r2 = t2 + (seq!['.'] + r3);
    let r1 = t1 + (seq!['.'] + r2);
    let r0 = t0 + (seq!['.'] + r1);
    assert(encode_utf8(r3) == d3 + (seq![58u8] + dp)) by { lemma_encode_joined(t3, ':', tp); }
    assert(encode_utf8(r2) == d2 + (seq![46u8] + encode_utf8(r3))) by { lemma_encode_joined(t2, '.', r3); }
    assert(encode_utf8(r1) == d1 + (seq![46u8] + encode_utf8(r2))) by { lemma_encode_joined(t1, '.', r2); }
    assert(encode_utf8(r0) == d0 + (seq![46u8] + encode_utf8(r1))) by { lemma_encode_joined(t0, '.', r1); }
    assert(peer_address_text(p) =~= r0);
    assert(encode_utf8(r0) =~= peer_address_bytes(p));
}

/// The dotted octets of an address hold no colon.
proof fn lemma_address_no_colon(d0: Seq<u8>, d1: Seq<u8>, d2: Seq<u8>, d3: Seq<u8>)
    requires
        all_digits(d0),
        all_digits(d1),
        all_digits(d2),
        all_digits(d3),
    ensures
        forall|i: int| 0 <= i < (d0 + seq![46u8] + (d1 + seq![46u8] + (d2 + seq![46u8] + d3))).len()
            ==> (d0 + seq![46u8] + (d1 + seq![46u8] + (d2 + seq![46u8] + d3)))[i] != 58,
{
    let addr = d0 + seq![46u8] + (d1 + seq![46u8] + (d2 + seq![46u8] + d3));
    lemma_digits_no_separators(d0);
    lemma_digits_no_separators(d1);
    lemma_digits_no_separators(d2);
    lemma_digits_no_separators(d3);
    assert forall|i: int| 0 <= i < addr.len() implies addr[i] != 58 by {
        if i < d0.len() {
            assert(addr[i] == d0[i]);
        } else if i == d0.len() {
        } else if i < d0.len() + 1 + d1.len() {
            assert(addr[i] == d1[i - d0.len() - 1]);
        } else if i == d0.len() + 1 + d1.len() {
        } else if i < d0.len() + 2 + d1.len() + d2.len() {
            assert(addr[i] == d2[i - d0.len() - 2 - d1.len()]);
        } else if i == d0.len() + 2 + d1.len() + d2.len() {
        } else {
            assert(addr[i] == d3[i - d0.len() - 3 - d1.len() - d2.len()]);
        }
    }
}

/// The address text of a peer, read back, is the peer: `Peer::new` of
/// `ip_address` gives the same peer.
#[verifier::spinoff_prover]
#[verifier::rlimit(40)]
pub proof fn lemma_peer_address_roundtrip(p: Peer)
    ensures
        parse_peer(encode_utf8(peer_address_text(p))) == Some(p),
{
    lemma_peer_address_bytes(p);
    lemma_octet_text(p.ip[0]);
    lemma_octet_text(p.ip[1]);
    lemma_octet_text(p.ip[2]);
    lemma_octet_text(p.ip[3]);
    lemma_decimal_bytes(p.port as nat);
    lemma_digits_no_separators(decimal_bytes(p.port as nat));
    let d0 = decimal_bytes(p.ip[0] as nat);
    let d1 = decimal_bytes(p.ip[1] as nat);
    let d2 = decimal_bytes(p.ip[2] as nat);
    let d3 = decimal_bytes(p.ip[3] as nat);
    let dp = decimal_bytes(p.port as nat);
    let addr = d0 + seq![46u8] + (d1 + seq![46u8] + (d2 + seq![46u8] + d3));
    let bytes = peer_address_bytes(p);
    assert(bytes == addr + (seq![58u8] + dp));
    lemma_address_no_colon(d0, d1, d2, d3);
    lemma_first_index_concat(addr, seq![58u8] + dp, 58);
    assert((seq![58u8] + dp)[0] == 58);
    assert(address_part(bytes) =~= addr);
    assert(bytes.subrange(addr.len() + 1 as int, bytes.len() as int) =~= dp);
    lemma_first_index_concat(dp, Seq::empty(), 58);
    assert(dp + Seq::<u8>::empty() =~= dp);
    assert(port_part(bytes) =~= dp);
    lemma_parse_octets_last(d3);
    lemma_parse_octets_step(d2, d3, 2);
    lemma_parse_octets_step(d1, d2 + seq![46u8] + d3, 3);
    lemma_parse_octets_step(d0, d1 + seq![46u8] + (d2 + seq![46u8] + d3), 4);
    let ip = parse_octets(addr, 4).unwrap();
    assert(ip =~= p.ip@);
    lemma_array_of::<4>(p.ip);
    assert(is_digit(dp[0]));
    assert(parse_port(dp) == Some(p.port));
}

/// Reads an octet from `s[start..end]`.
fn parse_octet(s: &[u8], start: usize, end: usize) -> (res: Option<u8>)
    requires
        start <= end <= s@.len(),
    ensures
        match res {
            Some(v) => octet_ok(s@.subrange(start as int, end as int))
                && v == digits_value(s@.subrange(start as int, end as int)),
            None => !octet_ok(s@.subrange(start as int, end as int)),
        },
{
    if end - start < 1 || end - start > 3 {
        return None;
    }
    if end - start > 1 && s[start] == 48 {
        assert(s@.subrange(start as int, end as int)[0] == 48);
        return None;
    }
    match parse_digits(s, start, end, 255) {
        Some(v) => Some(v as u8),
        None => None,
    }
}

/// Reads `n` dot-separated octets that make up the whole of `s`.
fn parse_octets_exec(s: &[u8], n: usize) -> (res: Option<Vec<u8>>)
    requires
        1 <= n,
    ensures
        match res {
            Some(v) => parse_octets(s@, n as nat) == Some(v@),
            None => parse_octets(s@, n as nat) is None,
        },
    decreases n,
{
    assert(s@.subrange(0, s@.len() as int) =~= s@);
    let d = find_byte(s, 0, 46);
    proof {
        lemma_first_index(s@, 46);
    }
    if n <= 1 {
        if d == s.len() {
            match parse_octet(s, 0, s.len()) {
                Some(v) => {
                    let mut out: Vec<u8> = Vec::new();
                    out.push(v);
                    assert(out@ =~= seq![digits_value(s@) as u8]);
                    Some(out)
                },
                None => None,
            }
        } else {
            None
        }
    } else if d < s.len() {
        match parse_octet(s, 0, d) {
            Some(v) => {
                let rest = vstd::slice::slice_subrange(s, d + 1, s.len());
                match parse_octets_exec(rest, n - 1) {
                    Some(tail) => {
                        let mut out: Vec<u8> = Vec::new();
                        out.push(v);
                        append_bytes(&mut out, tail.as_slice());
                        assert(out@ =~= seq![v] + tail@);
                        Some(out)
                    },
                    None => None,
                }
            },
            None => None,
        }
    } else {
        None
    }
}

/// Reads a port written in decimal, with an optional `+`.
fn parse_port_exec(s: &[u8]) -> (res: Option<u16>)
    ensures
        res == parse_port(s@),
{
    let body = if s.len() > 0 && s[0] == 43 {
        vstd::slice::slice_subrange(s, 1, s.len())
    } else {
        s
    };
    assert(s.len() > 0 && s@[0] == 43 ==> body@ =~= s@.drop_first());
    if body.len() < 1 {
        return None;
    }
    assert(body@.subrange(0, body@.len() as int) =~= body@);
    match parse_digits(body, 0, body.len(), 65535) {
        Some(v) => Some(v as u16),
        None => None,
    }
}

impl Peer {
    /// The peer that "a.b.c.d:port" text names; `None` where it names none.
    /// Text after a second `:` is not read.
    pub fn parse(ip_address: &str) -> (res: Option<Peer>)
        ensures
            res == parse_peer(ip_address.spec_bytes()),
    {
        let s = ip_address.as_bytes();
        assert(s@.subrange(0, s@.len() as int) =~= s@);
        let colon = find_byte(s, 0, 58);
        assert(s@ == ip_address.spec_bytes());
        proof {
            lemma_first_index(s@, 58);
        }
        if colon >= s.len() {
            return None;
        }
        let address = vstd::slice::slice_subrange(s, 0, colon);
        let rest = vstd::slice::slice_subrange(s, colon + 1, s.len());
        assert(rest@.subrange(0, rest@.len() as int) =~= rest@);
        let colon2 = find_byte(rest, 0, 58);
        proof {
            lemma_first_index(rest@, 58);
        }
        let port_text = vstd::slice::slice_subrange(rest, 0, colon2);
        let octets = match parse_octets_exec(address, 4) {
            Some(o) => o,
            None => {
                return None;
            },
        };
        proof {
            lemma_parse_octets_len(address@, 4);
        }
        let port = match parse_port_exec(port_text) {
            Some(p) => p,
            None => {
                return None;
            },
        };
        let ip: [u8; 4] = [octets[0], octets[1], octets[2], octets[3]];
        proof {
            assert(ip@ =~= octets@);
            lemma_array_of::<4>(ip);
        }
        Some(Peer { ip, port })
    }

    /// The peer that "a.b.c.d:port" text names. Text after a second `:` is
    /// not read.
    pub fn new(ip_address: &str) -> (res: Self)
        requires
            parse_peer(ip_address.spec_bytes()) is Some,
        ensures
            Some(res) == parse_peer(ip_address.spec_bytes()),
    {
        Peer::parse(ip_address).unwrap()
    }

    /// The "a.b.c.d:port" text of this peer.
    pub fn ip_address(&self) -> (res: String)
        ensures
            res@ == peer_address_text(*self),
    {
        let mut out = String::new();
        push_decimal(&mut out, self.ip[0] as u64);
        push_char(&mut out, '.');
        push_decimal(&mut out, self.ip[1] as u64);
        push_char(&mut out, '.');
        push_decimal(&mut out, self.ip[2] as u64);
        push_char(&mut out, '.');
        push_decimal(&mut out, self.ip[3] as u64);
        push_char(&mut out, ':');
        push_decimal(&mut out, self.port as u64);
        assert(out@ =~= peer_address_text(*self));
        out
    }
}

// ----------------- CODEC -----------------

/// The longest frame payload (tag included) that the codec accepts.
pub const MAX_MESSAGE_LENGTH: usize = 65536;

/// Messages that may be handed to the codec for sending.
pub trait SendableMessage {}

impl SendableMessage for PeerHandshake {}

impl<T> SendableMessage for PeerMessage<T> where T: MessageSerialization {}

/// One unit read off a connection: the handshake, or a message.
#[derive(Debug)]
pub enum PeerFrame {
    Handshake(PeerHandshake),
    Message(PeerMessageBuffer),
}

/// A frame as a value: the handshake, or a tag with its raw payload.
pub ghost enum FrameView {
    Handshake(PeerHandshake),
    Message(MessageTag, Seq<u8>),
}

impl View for PeerFrame {
    type V = FrameView;

    open spec fn view(&self) -> FrameView {
        match self {
            PeerFrame::Handshake(h) => FrameView::Handshake(*h),
            PeerFrame::Message(m) => FrameView::Message(m.message_tag, m.message@),
        }
    }
}

/// Whether the codec still waits for the handshake.
#[derive(Debug, PartialEq, Eq, Structural)]
pub enum CodecState {
    WaitingHandshake,
    Messages,
}

/// Splits the bytes of a connection into frames: first the handshake, then
/// length-prefixed messages.
pub struct PeerCodec {
    pub state: CodecState,
}

impl PeerCodec {
    /// A codec that waits for the handshake.
    pub fn new() -> (res: Self)
        ensures
            res.state == CodecState::WaitingHandshake,
    {
        PeerCodec { state: CodecState::WaitingHandshake }
    }
}

impl PeerFrame {
    /// The handshake of a handshake frame; a message frame is an error.
    pub fn expect_handshake(self) -> (res: Result<PeerHandshake, TorrentError>)
        ensures
            match self {
                PeerFrame::Handshake(h) => res == Ok::<PeerHandshake, TorrentError>(h),
                PeerFrame::Message(_) => res == Err::<PeerHandshake, TorrentError>(TorrentError::UnexpectedFrame),
            },
    {
        match self {
            PeerFrame::Handshake(handshake) => Ok(handshake),
            _ => Err(TorrentError::UnexpectedFrame),
        }
    }

    /// The message of a message frame, its payload read as a `T`; a
    /// handshake frame is an error.
    pub fn expect_message<T>(self) -> (res: Result<PeerMessage<T>, TorrentError>)
        where T: MessageSerialization,
        requires
            self matches PeerFrame::Message(m) ==> T::deserialize_requires(m.message@),
        ensures
            match self {
                PeerFrame::Message(m) => match res {
                    Ok(r) => r.message_tag == m.message_tag
                        && T::spec_deserialize(m.message@) == Ok::<T::V, TorrentError>(r.message@),
                    Err(e) => T::spec_deserialize(m.message@) == Err::<T::V, TorrentError>(e),
                },
                PeerFrame::Handshake(_) => res is Err && res->Err_0 == TorrentError::UnexpectedFrame,
            },
    {
        match self {
            PeerFrame::Message(message) => message.convert::<T>(),
            _ => Err(TorrentError::UnexpectedFrame),
        }
    }

    /// The message of a message frame, its payload read as an extension
    /// payload; a handshake frame is an error.
    pub fn expect_extension_message<T>(self) -> (res: Result<PeerMessage<ExtensionPayload<T>>, TorrentError>)
        where T: MessageSerialization,
        requires
            self matches PeerFrame::Message(m) ==> ExtensionPayload::<T>::deserialize_requires(m.message@),
        ensures
            match self {
                PeerFrame::Message(m) => match res {
                    Ok(r) => r.message_tag == m.message_tag
                        && ExtensionPayload::<T>::spec_deserialize(m.message@) == Ok::<(u8, T::V), TorrentError>(r.message@),
                    Err(e) => ExtensionPayload::<T>::spec_deserialize(m.message@) == Err::<(u8, T::V), TorrentError>(e),
                },
                PeerFrame::Handshake(_) => res is Err && res->Err_0 == TorrentError::UnexpectedFrame,
            },
    {
        self.expect_message::<ExtensionPayload<T>>()
    }

    /// The message of a message frame.
    pub fn unwrap_message(self) -> (res: PeerMessageBuffer)
        requires
            self is Message,
        ensures
            self == PeerFrame::Message(res),
    {
        match self {
            PeerFrame::Message(message) => message,
            PeerFrame::Handshake(_) => vstd::pervasive::unreached(),
        }
    }
}

/// What the codec does with the bytes `src` that it has so far, in state
/// `state`: how many bytes it uses up, the frame it yields (if any), and its
/// next state; or the error that it stops with.
pub open spec fn spec_decode(state: CodecState, src: Seq<u8>) -> Result<(nat, Option<FrameView>, CodecState), TorrentError> {
    match state {
        CodecState::WaitingHandshake => {
            if src.len() < 68 {
                Ok((0, None, CodecState::WaitingHandshake))
            } else {
                Ok((68, Some(FrameView::Handshake(handshake_of_bytes(src))), CodecState::Messages))
            }
        },
        CodecState::Messages => {
            if src.len() < 4 {
                Ok((0, None, CodecState::Messages))
            } else {
                let length = be_value(src.subrange(0, 4));
                if length == 0 {
                    Ok((4, None, CodecState::Messages))
                } else if src.len() < 5 {
                    Ok((0, None, CodecState::Messages))
                } else if length > 65536 {
                    Err(TorrentError::MessageTooLong(length as usize))
                } else if src.len() < length + 4 {
                    Ok((0, None, CodecState::Messages))
                } else {
                    match frame_deserialize::<Vec<u8>>(src.subrange(0, length + 4)) {
                        Ok((tag, payload)) => Ok(((length + 4) as nat, Some(FrameView::Message(tag, payload)), CodecState::Messages)),
                        Err(e) => Err(e),
                    }
                }
            }
        },
    }
}

impl PeerCodec {
    /// Reads the next frame from the front of `src`: returns how many bytes
    /// it used up and the frame, if `src` holds a whole one. A keep-alive (a
    /// zero length) is used up with no frame.
    pub fn decode(&mut self, src: &[u8]) -> (res: Result<(usize, Option<PeerFrame>), TorrentError>)
        ensures
            match spec_decode(old(self).state, src@) {
                Ok((used, frame, next)) => res is Ok && res->Ok_0.0 == used
                    && (match res->Ok_0.1 {
                        Some(f) => frame == Some(f@),
                        None => frame is None,
                    })
                    && final(self).state == next,
                Err(e) => res == Err::<(usize, Option<PeerFrame>), TorrentError>(e) && final(self).state == old(self).state,
            },
            res matches Ok((used, _)) ==> used <= src@.len(),
    {
        match self.state {
            CodecState::WaitingHandshake => {
                if src.len() < HANDSHAKE_LENGTH {
                    return Ok((0, None));
                }
                let handshake_data = vstd::slice::slice_subrange(src, 0, HANDSHAKE_LENGTH);
                let handshake = <PeerHandshake as MessageSerialization>::deserialize(handshake_data)?;
                assert(handshake_of_bytes(handshake_data@) == handshake_of_bytes(src@)) by {
                    assert(handshake_data@.subrange(1, 20) =~= src@.subrange(1, 20));
                    assert(handshake_data@.subrange(20, 28) =~= src@.subrange(20, 28));
                    assert(handshake_data@.subrange(28, 48) =~= src@.subrange(28, 48));
                    assert(handshake_data@.subrange(48, 68) =~= src@.subrange(48, 68));
                }
                self.state = CodecState::Messages;
                Ok((HANDSHAKE_LENGTH, Some(PeerFrame::Handshake(handshake))))
            },
            CodecState::Messages => {
                if src.len() < 4 {
                    return Ok((0, None));
                }
                let length = u32_from_be(src) as usize;
                assert(be_value(src@) == be_value(src@.subrange(0, 4)));
                if length == 0 {
                    return Ok((4, None));
                }
                if src.len() < 5 {
                    return Ok((0, None));
                }
                if length > MAX_MESSAGE_LENGTH {
                    return Err(TorrentError::MessageTooLong(length));
                }
                let message_length = length + 4;
                if src.len() < message_length {
                    return Ok((0, None));
                }
                let payload = vstd::slice::slice_subrange(src, 0, message_length);
                assert(payload@.subrange(0, 4) =~= src@.subrange(0, 4));
                let peer_message = <PeerMessageBuffer as MessageSerialization>::deserialize(payload)?;
                Ok((message_length, Some(PeerFrame::Message(peer_message))))
            },
        }
    }

    /// Appends the bytes of `item` to `dst`; nothing is appended where
    /// serializing fails.
    pub fn encode<T>(&mut self, item: T, dst: &mut Vec<u8>) -> (res: Result<(), TorrentError>)
        where T: MessageSerialization + SendableMessage,
        requires
            item.serialize_requires(),
        ensures
            final(self).state == old(self).state,
            match item.spec_serialize() {
                Some(b) => res is Ok && final(dst)@ == old(dst)@ + b,
                None => res is Err && final(dst)@ == old(dst)@,
            },
    {
        let bytes = item.serialize()?;
        append_bytes(dst, bytes.as_slice());
        Ok(())
    }
}


/// The codec reads a sent handshake back, whatever follows it, and then
/// waits for messages.
pub proof fn lemma_codec_handshake_roundtrip(h: PeerHandshake, rest: Seq<u8>)
    ensures
        spec_decode(CodecState::WaitingHandshake, handshake_bytes(h) + rest)
            == Ok::<(nat, Option<FrameView>, CodecState), TorrentError>((68, Some(FrameView::Handshake(h)), CodecState::Messages)),
{
    let b = handshake_bytes(h) + rest;
    assert(b.subrange(1, 20) =~= h.protocol@);
    assert(b.subrange(20, 28) =~= h.reserved@);
    assert(b.subrange(28, 48) =~= h.info_hash.0@);
    assert(b.subrange(48, 68) =~= h.peer_id@);
    lemma_array_of::<19>(h.protocol);
    lemma_array_of::<8>(h.reserved);
    lemma_array_of::<20>(h.info_hash.0);
    lemma_array_of::<20>(h.peer_id);
}

/// The codec reads a sent message back, whatever follows it, using up
/// exactly its bytes, wherever the payload fits the length limit.
pub proof fn lemma_codec_message_roundtrip(tag: MessageTag, payload: Seq<u8>, rest: Seq<u8>)
    requires
        payload.len() < MAX_MESSAGE_LENGTH,
    ensures
        spec_decode(CodecState::Messages, frame_bytes(tag, payload) + rest)
            == Ok::<(nat, Option<FrameView>, CodecState), TorrentError>((payload.len() + 5, Some(FrameView::Message(tag, payload)), CodecState::Messages)),
{
    let f = frame_bytes(tag, payload);
    let b = f + rest;
    let n = frame_length(payload.len());
    lemma_be_roundtrip(n);
    assert(b.subrange(0, 4) =~= be_bytes(n));
    assert(n == payload.len() + 1);
    assert(b.subrange(0, (payload.len() + 5) as int) =~= f);
    lemma_frame_roundtrip::<Vec<u8>>(tag, payload, Seq::empty());
    assert(f + Seq::<u8>::empty() =~= f);
}

// ----------------- PEER CONNECTION -----------------

/// What a connection knows of its peer: the address, and what the
/// handshakes told (the peer's id, and its id for the metadata extension).
#[derive(Debug, Clone)]
pub struct PeerConnection {
    pub peer: Peer,
    pub peer_id: Option<PeerId>,
    pub metadata_id: Option<u8>,
}

/// What checking a peer's handshake gives: this client's own peer id is an
/// error, then a protocol name length other than 19, then another protocol
/// name.
pub open spec fn spec_check_handshake(h: PeerHandshake) -> Result<(), TorrentError> {
    if h.peer_id@ == crate::PEER_ID@ {
        Err(TorrentError::OwnPeerId)
    } else if h.protocol_length != 19 {
        Err(TorrentError::InvalidProtocolLength)
    } else if h.protocol@ != protocol_name() {
        Err(TorrentError::InvalidProtocol)
    } else {
        Ok(())
    }
}

/// What checking the reply to a piece request gives: another tag than
/// `Piece` is an error, then a block of another piece, offset or length.
pub open spec fn spec_check_piece(request: (u32, u32, u32), tag: MessageTag, block: (u32, u32, Seq<u8>)) -> Result<(), TorrentError> {
    if tag != MessageTag::Piece {
        Err(TorrentError::UnexpectedTag)
    } else if block.0 != request.0 || block.1 != request.1 || block.2.len() % 0x1_0000_0000 != request.2 {
        Err(TorrentError::PieceMismatch)
    } else {
        Ok(())
    }
}

/// A reply to a piece request is taken exactly when it is a `Piece` message
/// for the requested piece, at the requested offset, with as many bytes as
/// were asked for; a reply with another tag is refused as unexpected, and a
/// piece message for another piece or offset, or of another length, as a
/// mismatch.
pub proof fn lemma_check_piece(request: (u32, u32, u32), tag: MessageTag, block: (u32, u32, Seq<u8>))
    ensures
        spec_check_piece(request, tag, block) is Ok <==> (tag == MessageTag::Piece && block.0 == request.0
            && block.1 == request.1 && block.2.len() % 0x1_0000_0000 == request.2),
        tag != MessageTag::Piece ==> spec_check_piece(request, tag, block) == Err::<(), TorrentError>(TorrentError::UnexpectedTag),
        tag == MessageTag::Piece && (block.0 != request.0 || block.1 != request.1)
            ==> spec_check_piece(request, tag, block) == Err::<(), TorrentError>(TorrentError::PieceMismatch),
        tag == MessageTag::Piece && block.2.len() % 0x1_0000_0000 != request.2
            ==> spec_check_piece(request, tag, block) == Err::<(), TorrentError>(TorrentError::PieceMismatch),
{
}

impl PeerConnection {
    /// A connection to `peer` before any handshake.
    pub fn new(peer: &Peer) -> (res: Self)
        ensures
            res.peer == *peer,
            res.peer_id is None,
            res.metadata_id is None,
    {
        PeerConnection { peer: *peer, peer_id: None, metadata_id: None }
    }

    /// The peer's id, which the handshake told.
    pub fn peer_id(&self) -> (res: PeerId)
        requires
            self.peer_id is Some,
        ensures
            Some(res) == self.peer_id,
    {
        self.peer_id.unwrap()
    }

    /// The peer's id for the metadata extension, which the extension
    /// handshake told.
    pub fn metadata_id(&self) -> (res: u8)
        requires
            self.metadata_id is Some,
        ensures
            Some(res) == self.metadata_id,
    {
        self.metadata_id.unwrap()
    }

    /// Whether the handshake is still to be made.
    pub fn requires_handshake(&self) -> (res: bool)
        ensures
            res == self.peer_id is None,
    {
        self.peer_id.is_none()
    }

    /// Whether the extension handshake is still to be made (the handshake
    /// comes first).
    pub fn requires_extension_exchange(&self) -> (res: bool)
        ensures
            res == (self.peer_id is None || self.metadata_id is None),
    {
        self.requires_handshake() || self.metadata_id.is_none()
    }

    /// Checks the handshake that a peer answers with.
    pub fn check_handshake(handshake: &PeerHandshake) -> (res: Result<(), TorrentError>)
        ensures
            res == spec_check_handshake(*handshake),
    {
        if crate::bencode::bytes_eq(vstd::array::array_as_slice(&handshake.peer_id), vstd::array::array_as_slice(crate::PEER_ID)) {
            return Err(TorrentError::OwnPeerId);
        }
        if handshake.protocol_length != 19 {
            return Err(TorrentError::InvalidProtocolLength);
        }
        let name: [u8; 19] = [66, 105, 116, 84, 111, 114, 114, 101, 110, 116, 32, 112, 114, 111, 116, 111, 99, 111, 108];
        assert(name@ =~= protocol_name());
        if !crate::bencode::bytes_eq(vstd::array::array_as_slice(&handshake.protocol), vstd::array::array_as_slice(&name)) {
            return Err(TorrentError::InvalidProtocol);
        }
        Ok(())
    }

    /// Takes the frame that answers this client's handshake: it must be a
    /// handshake, and pass the checks. The connection is unchanged.
    pub fn receive_handshake(&self, frame: PeerFrame) -> (res: Result<PeerHandshake, TorrentError>)
        ensures
            match frame {
                PeerFrame::Handshake(h) => match spec_check_handshake(h) {
                    Ok(_) => res == Ok::<PeerHandshake, TorrentError>(h),
                    Err(e) => res == Err::<PeerHandshake, TorrentError>(e),
                },
                PeerFrame::Message(_) => res == Err::<PeerHandshake, TorrentError>(TorrentError::UnexpectedFrame),
            },
    {
        let handshake = frame.expect_handshake()?;
        PeerConnection::check_handshake(&handshake)?;
        Ok(handshake)
    }

    /// Takes the message that follows the peer's handshake: it must be a
    /// bitfield. The handshake is then complete, and the peer's id known.
    pub fn receive_bitfield(&mut self, handshake: &PeerHandshake, frame: PeerFrame) -> (res: Result<(), TorrentError>)
        requires
            frame is Message,
        ensures
            match frame {
                PeerFrame::Message(m) => if m.message_tag == MessageTag::Bitfield {
                    res is Ok && *final(self) == (PeerConnection { peer_id: Some(handshake.peer_id), ..*old(self) })
                } else {
                    res == Err::<(), TorrentError>(TorrentError::UnexpectedTag) && *final(self) == *old(self)
                },
                PeerFrame::Handshake(_) => true,
            },
    {
        let bitfield = frame.unwrap_message();
        if bitfield.message_tag != MessageTag::Bitfield {
            return Err(TorrentError::UnexpectedTag);
        }
        self.peer_id = Some(handshake.peer_id);
        Ok(())
    }

    /// Takes the answer to this client's interest: it must be an unchoke
    /// message, with no payload.
    pub fn receive_unchoke(frame: PeerFrame) -> (res: Result<PeerMessageBuffer, TorrentError>)
        ensures
            match frame {
                PeerFrame::Message(m) => if m.message_tag != MessageTag::Unchoke {
                    res == Err::<PeerMessageBuffer, TorrentError>(TorrentError::UnexpectedTag)
                } else if m.message@.len() != 0 {
                    res == Err::<PeerMessageBuffer, TorrentError>(TorrentError::UnexpectedPayload)
                } else {
                    res is Ok && res->Ok_0.message_tag == MessageTag::Unchoke && res->Ok_0.message@ == Seq::<u8>::empty()
                },
                PeerFrame::Handshake(_) => res == Err::<PeerMessageBuffer, TorrentError>(TorrentError::UnexpectedFrame),
            },
    {
        let message = frame.expect_message::<Vec<u8>>()?;
        if message.message_tag != MessageTag::Unchoke {
            return Err(TorrentError::UnexpectedTag);
        }
        if message.message.len() != 0 {
            return Err(TorrentError::UnexpectedPayload);
        }
        Ok(message)
    }

    /// Takes the answer to a piece request: it must be a piece message for
    /// the requested piece, offset and length.
    pub fn receive_piece(request: &PieceRequestMessage, frame: PeerFrame) -> (res: Result<PeerMessage<PieceMessage>, TorrentError>)
        requires
            frame matches PeerFrame::Message(m) ==> m.message@.len() >= 8,
        ensures
            match frame {
                PeerFrame::Message(m) => {
                    let block = PieceMessage::spec_deserialize(m.message@)->Ok_0;
                    match spec_check_piece(request@, m.message_tag, block) {
                        Ok(_) => res is Ok && res->Ok_0.message_tag == MessageTag::Piece && res->Ok_0.message@ == block,
                        Err(e) => res == Err::<PeerMessage<PieceMessage>, TorrentError>(e),
                    }
                },
                PeerFrame::Handshake(_) => res == Err::<PeerMessage<PieceMessage>, TorrentError>(TorrentError::UnexpectedFrame),
            },
            res matches Ok(p) ==> {
                &&& p.message_tag == MessageTag::Piece
                &&& p.message@.0 == request@.0
                &&& p.message@.1 == request@.1
                &&& p.message@.2.len() % 0x1_0000_0000 == request@.2
            },
            (frame matches PeerFrame::Message(m) && m.message_tag == MessageTag::Piece
                && PieceMessage::spec_deserialize(m.message@)->Ok_0.1 != request@.1)
                ==> res == Err::<PeerMessage<PieceMessage>, TorrentError>(TorrentError::PieceMismatch),
            (frame matches PeerFrame::Message(m) && m.message_tag == MessageTag::Piece
                && PieceMessage::spec_deserialize(m.message@)->Ok_0.0 != request@.0)
                ==> res == Err::<PeerMessage<PieceMessage>, TorrentError>(TorrentError::PieceMismatch),
            (frame matches PeerFrame::Message(m) && m.message_tag != MessageTag::Piece)
                ==> res == Err::<PeerMessage<PieceMessage>, TorrentError>(TorrentError::UnexpectedTag),
    {
        let piece = frame.expect_message::<PieceMessage>()?;
        if piece.message_tag != MessageTag::Piece {
            return Err(TorrentError::UnexpectedTag);
        }
        if piece.message.index() != request.index() || piece.message.begin() != request.begin()
            || piece.message.length() != request.length() {
            return Err(TorrentError::PieceMismatch);
        }
        Ok(piece)
    }

    /// Takes the answer to this client's extension handshake: it must be an
    /// extension message that holds the peer's extension handshake. The
    /// peer's id for the metadata extension is then known.
    pub fn receive_extension_handshake(&mut self, frame: PeerFrame) -> (res: Result<PeerExtMessageBuffer<ExtensionHandshakeMessage>, TorrentError>)
        requires
            frame matches PeerFrame::Message(m) ==> m.message@.len() >= 1,
        ensures
            match frame {
                PeerFrame::Message(m) => match ExtensionPayload::<ExtensionHandshakeMessage>::spec_deserialize(m.message@) {
                    Err(e) => res == Err::<PeerExtMessageBuffer<ExtensionHandshakeMessage>, TorrentError>(e)
                        && *final(self) == *old(self),
                    Ok(p) => if m.message_tag != MessageTag::Extension {
                        res == Err::<PeerExtMessageBuffer<ExtensionHandshakeMessage>, TorrentError>(TorrentError::UnexpectedTag)
                            && *final(self) == *old(self)
                    } else {
                        res is Ok && res->Ok_0@ == (MessageTag::Extension, p)
                            && *final(self) == (PeerConnection { metadata_id: Some(p.1.metadata.ut_metadata), ..*old(self) })
                    },
                },
                PeerFrame::Handshake(_) => res == Err::<PeerExtMessageBuffer<ExtensionHandshakeMessage>, TorrentError>(TorrentError::UnexpectedFrame)
                    && *final(self) == *old(self),
            },
    {
        let message = frame.expect_extension_message::<ExtensionHandshakeMessage>()?;
        if message.message_tag != MessageTag::Extension {
            return Err(TorrentError::UnexpectedTag);
        }
        self.metadata_id = Some(message.message.payload.metadata.ut_metadata);
        Ok(message)
    }

    /// The request for the first piece of the torrent's metadata, under the
    /// peer's id for the metadata extension.
    pub fn metadata_request(&self) -> (res: PeerExtMessageBuffer<ExtensionPieceRequestMessage>)
        requires
            self.metadata_id is Some,
        ensures
            res.message_tag == MessageTag::Extension,
            Some(res.message.metadata_id) == self.metadata_id,
            res.message.payload@ == (ExtensionPieceRequestView { msg_type: 0, piece: 0, total_size: 0, torrent_info: None }),
    {
        ExtensionPayload::new(self.metadata_id(), ExtensionPieceRequestMessage::default()).into_peer_message()
    }

    /// Whether an extension payload can be read as a metadata message: it
    /// has the extension id, then a bencode value whose total size does not
    /// exceed what follows the id.
    pub fn metadata_payload_readable(data: &[u8]) -> (res: bool)
        ensures
            res == ExtensionPayload::<ExtensionPieceRequestMessage>::deserialize_requires(data@),
    {
        if data.len() < 1 {
            return false;
        }
        let rest = vstd::slice::slice_subrange(data, 1, data.len());
        let v = match crate::bencode::decode(rest) {
            Ok(v) => v,
            Err(_) => {
                return false;
            },
        };
        match crate::json::convert_value(&v) {
            Ok(j) => match crate::messages::request_header_from_json(&j) {
                Ok((_, _, total)) => (total as usize) <= rest.len(),
                Err(_) => true,
            },
            Err(_) => true,
        }
    }

    /// Takes the answer to a metadata request, as `receive_metadata` does;
    /// `None` where a message's payload cannot be read as a metadata message.
    pub fn try_receive_metadata(frame: PeerFrame) -> (res: Option<Result<PeerExtMessageBuffer<ExtensionPieceRequestMessage>, TorrentError>>)
        ensures
            match frame {
                PeerFrame::Message(m) => if !ExtensionPayload::<ExtensionPieceRequestMessage>::deserialize_requires(m.message@) {
                    res is None
                } else {
                    match ExtensionPayload::<ExtensionPieceRequestMessage>::spec_deserialize(m.message@) {
                        Err(e) => res == Some(Err::<PeerExtMessageBuffer<ExtensionPieceRequestMessage>, TorrentError>(e)),
                        Ok(p) => if m.message_tag != MessageTag::Extension {
                            res == Some(Err::<PeerExtMessageBuffer<ExtensionPieceRequestMessage>, TorrentError>(TorrentError::UnexpectedTag))
                        } else {
                            res matches Some(Ok(r)) && r@ == (MessageTag::Extension, p)
                        },
                    }
                },
                PeerFrame::Handshake(_) => res == Some(Err::<PeerExtMessageBuffer<ExtensionPieceRequestMessage>, TorrentError>(TorrentError::UnexpectedFrame)),
            },
    {
        let readable = match &frame {
            PeerFrame::Message(m) => PeerConnection::metadata_payload_readable(m.message.as_slice()),
            PeerFrame::Handshake(_) => true,
        };
        if !readable {
            return None;
        }
        Some(PeerConnection::receive_metadata(frame))
    }

    /// Takes the answer to a metadata request: it must be an extension
    /// message that holds a metadata message.
    pub fn receive_metadata(frame: PeerFrame) -> (res: Result<PeerExtMessageBuffer<ExtensionPieceRequestMessage>, TorrentError>)
        requires
            frame matches PeerFrame::Message(m) ==> ExtensionPayload::<ExtensionPieceRequestMessage>::deserialize_requires(m.message@),
        ensures
            match frame {
                PeerFrame::Message(m) => match ExtensionPayload::<ExtensionPieceRequestMessage>::spec_deserialize(m.message@) {
                    Err(e) => res == Err::<PeerExtMessageBuffer<ExtensionPieceRequestMessage>, TorrentError>(e),
                    Ok(p) => if m.message_tag != MessageTag::Extension {
                        res == Err::<PeerExtMessageBuffer<ExtensionPieceRequestMessage>, TorrentError>(TorrentError::UnexpectedTag)
                    } else {
                        res is Ok && res->Ok_0@ == (MessageTag::Extension, p)
                    },
                },
                PeerFrame::Handshake(_) => res == Err::<PeerExtMessageBuffer<ExtensionPieceRequestMessage>, TorrentError>(TorrentError::UnexpectedFrame),
            },
    {
        let message = frame.expect_extension_message::<ExtensionPieceRequestMessage>()?;
        if message.message_tag != MessageTag::Extension {
            return Err(TorrentError::UnexpectedTag);
        }
        Ok(message)
    }
}

} // verus!
