//! Downloading a torrent: the block requests of a piece, the round-robin
//! sharing of pieces among peers, the check of a downloaded piece against
//! its hash, and the file put together from its pieces.

use vstd::prelude::*;
use crate::messages::PieceRequestMessage;
use crate::torrent::{sha1_digest, spec_sha1, PiecesHashes};
use crate::types::{HashId, TorrentError};
use crate::wire::append_bytes;

verus! {

/// The largest block that a request asks for.
pub const BLOCK_MAX: usize = 16384;

/// The number of blocks of a piece of `piece_size` bytes.
pub open spec fn block_count(piece_size: nat) -> nat {
    (piece_size + 16383) / 16384
}

/// The size of block `b` of the `n` blocks of a piece of `piece_size`
/// bytes: a full block, but for the last, which holds what is left (a full
/// block where nothing is).
pub open spec fn block_size(piece_size: nat, b: nat, n: nat) -> nat {
    if b + 1 == n {
        if piece_size % 16384 == 0 {
            16384
        } else {
            piece_size % 16384
        }
    } else {
        16384
    }
}

/// The size of block `block_index` of the `num_of_blocks` blocks of a piece
/// of `piece_size` bytes.
pub fn calculate_block_size(piece_size: usize, block_index: usize, num_of_blocks: usize) -> (res: usize)
    requires
        num_of_blocks >= 1,
    ensures
        res == block_size(piece_size as nat, block_index as nat, num_of_blocks as nat),
{
    if block_index == num_of_blocks - 1 {
        let remainder = piece_size % BLOCK_MAX;
        if remainder == 0 {
            BLOCK_MAX
        } else {
            remainder
        }
    } else {
        BLOCK_MAX
    }
}

/// The request for block `b` of piece `index` of `piece_size` bytes: the
/// piece, the block's offset and its size, each cut to 32 bits.
pub open spec fn block_request(index: nat, piece_size: nat, b: nat) -> (u32, u32, u32) {
    (
        (index % 0x1_0000_0000) as u32,
        ((b * 16384) % 0x1_0000_0000) as u32,
        (block_size(piece_size, b, block_count(piece_size)) % 0x1_0000_0000) as u32,
    )
}

/// The requests for the blocks of piece `index` of `piece_size` bytes, in
/// order.
pub fn piece_requests(index: usize, piece_size: usize) -> (res: Vec<PieceRequestMessage>)
    requires
        piece_size + 16383 <= usize::MAX,
    ensures
        res@.len() == block_count(piece_size as nat),
        forall|b: int| 0 <= b < res@.len() ==> #[trigger] res@[b]@ == block_request(index as nat, piece_size as nat, b as nat),
{
    let num_of_blocks = (piece_size + (BLOCK_MAX - 1)) / BLOCK_MAX;
    let mut requests: Vec<PieceRequestMessage> = Vec::new();
    let mut block: usize = 0;
    while block < num_of_blocks
        invariant
            num_of_blocks == block_count(piece_size as nat),
            piece_size + 16383 <= usize::MAX,
            block <= num_of_blocks,
            requests@.len() == block,
            forall|b: int| 0 <= b < block ==> #[trigger] requests@[b]@ == block_request(index as nat, piece_size as nat, b as nat),
        decreases num_of_blocks - block,
    {
        assert(block * 16384 <= piece_size + 16383) by (nonlinear_arith)
            requires block < num_of_blocks, num_of_blocks == (piece_size + 16383) / 16384;
        let size = calculate_block_size(piece_size, block, num_of_blocks);
        let begin = block * BLOCK_MAX;
        let request = PieceRequestMessage::new(
            ((index as u64) % 0x1_0000_0000) as u32,
            ((begin as u64) % 0x1_0000_0000) as u32,
            ((size as u64) % 0x1_0000_0000) as u32,
        );
        requests.push(request);
        block = block + 1;
    }
    requests
}

/// The blocks of a piece tile it: every block but the last is full, the
/// last is not empty, and together they hold the piece's bytes, no more.
pub proof fn lemma_blocks_cover_piece(piece_size: nat)
    requires
        piece_size > 0,
    ensures
        block_count(piece_size) >= 1,
        forall|b: nat| b < block_count(piece_size) ==> 0 < #[trigger] block_size(piece_size, b, block_count(piece_size)) <= 16384,
        (block_count(piece_size) - 1) * 16384 + block_size(piece_size, (block_count(piece_size) - 1) as nat, block_count(piece_size))
            == piece_size,
{
    let n = block_count(piece_size);
    let q = piece_size / 16384;
    let r = piece_size % 16384;
    assert(piece_size == q * 16384 + r && 0 <= r < 16384) by (nonlinear_arith)
        requires q == piece_size / 16384, r == piece_size % 16384;
    if r == 0 {
        assert(n == q) by (nonlinear_arith)
            requires n == (piece_size + 16383) / 16384, piece_size == q * 16384;
        assert(q >= 1) by (nonlinear_arith)
            requires piece_size == q * 16384, piece_size > 0;
        assert((n - 1) * 16384 + 16384 == piece_size) by (nonlinear_arith)
            requires n == q, piece_size == q * 16384;
    } else {
        assert(n == q + 1) by (nonlinear_arith)
            requires n == (piece_size + 16383) / 16384, piece_size == q * 16384 + r, 0 < r < 16384;
        assert((n - 1) * 16384 + r == piece_size) by (nonlinear_arith)
            requires n == q + 1, piece_size == q * 16384 + r;
    }
}

// ----------------- CHECKING PIECES -----------------

/// Checks downloaded piece data against the piece's hash.
pub fn check_piece(data: &[u8], hash: &HashId) -> (res: Result<(), TorrentError>)
    ensures
        res is Ok <==> spec_sha1(data@) == hash.0@,
        res is Err ==> res == Err::<(), TorrentError>(TorrentError::HashMismatch),
{
    let digest = sha1_digest(data);
    if crate::bencode::bytes_eq(vstd::array::array_as_slice(&digest), vstd::array::array_as_slice(&hash.0)) {
        Ok(())
    } else {
        Err(TorrentError::HashMismatch)
    }
}

// ----------------- SHARING PIECES AMONG PEERS -----------------

/// The pieces among the first `upto` that go to peer `p` of `peer_count`,
/// in order, each with its hash: piece `i` goes to peer `i % peer_count`.
pub open spec fn peer_pieces(h: Seq<HashId>, peer_count: nat, p: nat, upto: nat) -> Seq<(usize, HashId)>
    decreases upto,
{
    if upto == 0 {
        Seq::empty()
    } else {
        let front = peer_pieces(h, peer_count, p, (upto - 1) as nat);
        if (upto - 1) % (peer_count as int) == p {
            front.push(((upto - 1) as usize, h[upto - 1]))
        } else {
            front
        }
    }
}

/// Shares the pieces out among `peer_count` peers in turn: the list of
/// pieces (with their hashes) that each peer is to send.
pub fn distribute_pieces(pieces: &PiecesHashes, peer_count: usize) -> (res: Vec<Vec<(usize, HashId)>>)
    ensures
        res@.len() == peer_count,
        forall|p: int| 0 <= p < peer_count ==> (#[trigger] res@[p])@ == peer_pieces(pieces@, peer_count as nat, p as nat, pieces@.len()),
{
    let mut out: Vec<Vec<(usize, HashId)>> = Vec::new();
    let mut p: usize = 0;
    while p < peer_count
        invariant
            p <= peer_count,
            out@.len() == p,
            forall|q: int| 0 <= q < p ==> (#[trigger] out@[q])@ == peer_pieces(pieces@, peer_count as nat, q as nat, 0),
        decreases peer_count - p,
    {
        out.push(Vec::new());
        p = p + 1;
    }
    if peer_count == 0 {
        return out;
    }
    let count = pieces.len();
    let mut i: usize = 0;
    while i < count
        invariant
            peer_count > 0,
            count == pieces@.len(),
            i <= count,
            out@.len() == peer_count,
            forall|q: int| 0 <= q < peer_count ==> (#[trigger] out@[q])@ == peer_pieces(pieces@, peer_count as nat, q as nat, i as nat),
        decreases count - i,
    {
        let j = i % peer_count;
        let ghost before = out@;
        let mut list = out.remove(j);
        list.push((i, pieces.get(i)));
        out.insert(j, list);
        proof {
            assert forall|q: int| 0 <= q < peer_count implies (#[trigger] out@[q])@ == peer_pieces(pieces@, peer_count as nat, q as nat, (i + 1) as nat) by {
                if q == j {
                    assert(out@[q]@ == before[q]@.push((i, pieces@[i as int])));
                } else {
                    assert(out@[q] == before[q]);
                }
            }
        }
        i = i + 1;
    }
    out
}

/// Whether piece `i` is in a list of pieces.
pub open spec fn lists_piece(l: Seq<(usize, HashId)>, i: nat) -> bool {
    exists|k: int| 0 <= k < l.len() && (#[trigger] l[k]).0 == i
}

/// Round-robin sharing: every piece goes to exactly one peer, peer
/// `i % peer_count`, with its hash, and each peer's pieces come in order.
pub proof fn lemma_distribution(h: Seq<HashId>, peer_count: nat, p: nat, upto: nat)
    requires
        peer_count > 0,
        upto <= h.len(),
        h.len() <= usize::MAX,
    ensures
        forall|k: int| 0 <= k < peer_pieces(h, peer_count, p, upto).len() ==> {
            let e = #[trigger] peer_pieces(h, peer_count, p, upto)[k];
            &&& e.0 < upto
            &&& (e.0 as int) % (peer_count as int) == p
            &&& e.1 == h[e.0 as int]
        },
        forall|k: int, l: int| 0 <= k < l < peer_pieces(h, peer_count, p, upto).len()
            ==> (#[trigger] peer_pieces(h, peer_count, p, upto)[k]).0 < (#[trigger] peer_pieces(h, peer_count, p, upto)[l]).0,
        forall|i: nat| i < upto && (i as int) % (peer_count as int) == p ==> #[trigger] lists_piece(peer_pieces(h, peer_count, p, upto), i),
    decreases upto,
{
    if upto > 0 {
        let n = (upto - 1) as nat;
        lemma_distribution(h, peer_count, p, n);
        let front = peer_pieces(h, peer_count, p, n);
        let all = peer_pieces(h, peer_count, p, upto);
        assert forall|k: int| 0 <= k < front.len() implies #[trigger] all[k] == front[k] by {}
        assert forall|i: nat| i < upto && (i as int) % (peer_count as int) == p implies #[trigger] lists_piece(all, i) by {
            if i < n {
                assert(lists_piece(front, i));
                let k = choose|k: int| 0 <= k < front.len() && (#[trigger] front[k]).0 == i;
                assert(all[k] == front[k]);
            } else {
                assert(all[all.len() - 1].0 == i);
            }
        }
    }
}

// ----------------- PUTTING THE FILE TOGETHER -----------------

/// The data of piece `i` among downloaded pieces: that of the last one
/// with index `i`, if there is one.
pub open spec fn piece_data(blocks: Seq<(usize, Vec<u8>)>, i: nat) -> Option<Seq<u8>>
    decreases blocks.len(),
{
    if blocks.len() == 0 {
        None
    } else if blocks.last().0 == i {
        Some(blocks.last().1@)
    } else {
        piece_data(blocks.drop_last(), i)
    }
}

/// The file made of the first `upto` pieces, in order; a piece that was
/// not downloaded is left out.
pub open spec fn assembled(blocks: Seq<(usize, Vec<u8>)>, upto: nat) -> Seq<u8>
    decreases upto,
{
    if upto == 0 {
        Seq::empty()
    } else {
        assembled(blocks, (upto - 1) as nat) + match piece_data(blocks, (upto - 1) as nat) {
            Some(d) => d,
            None => Seq::empty(),
        }
    }
}

/// The data of piece `i` among downloaded pieces: that of the last one with
/// index `i`.
fn find_piece<'a>(blocks: &'a Vec<(usize, Vec<u8>)>, i: usize) -> (res: Option<&'a Vec<u8>>)
    ensures
        match res {
            Some(d) => piece_data(blocks@, i as nat) == Some(d@),
            None => piece_data(blocks@, i as nat) is None,
        },
{
    let mut k = blocks.len();
    assert(blocks@.subrange(0, k as int) =~= blocks@);
    while k > 0
        invariant
            k <= blocks@.len(),
            piece_data(blocks@, i as nat) == piece_data(blocks@.subrange(0, k as int), i as nat),
        decreases k,
    {
        let ghost s = blocks@.subrange(0, k as int);
        assert(s.drop_last() =~= blocks@.subrange(0, k - 1));
        if blocks[k - 1].0 == i {
            return Some(&blocks[k - 1].1);
        }
        k = k - 1;
    }
    assert(blocks@.subrange(0, 0) =~= Seq::<(usize, Vec<u8>)>::empty());
    None
}

/// The file made of pieces `0..piece_count`, in order, from the downloaded
/// pieces; where a piece was downloaded twice, the later data counts.
pub fn assemble_pieces(piece_count: usize, blocks: &Vec<(usize, Vec<u8>)>) -> (res: Vec<u8>)
    ensures
        res@ == assembled(blocks@, piece_count as nat),
{
    assert(blocks@.subrange(0, blocks@.len() as int) =~= blocks@);
    let mut out: Vec<u8> = Vec::new();
    let mut i: usize = 0;
    while i < piece_count
        invariant
            i <= piece_count,
            out@ == assembled(blocks@, i as nat),
        decreases piece_count - i,
    {
        match find_piece(blocks, i) {
            Some(d) => {
                append_bytes(&mut out, d.as_slice());
            },
            None => {},
        }
        assert(out@ =~= assembled(blocks@, (i + 1) as nat));
        i = i + 1;
    }
    out
}

} // verus!
