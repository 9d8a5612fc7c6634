use codecrafters_bittorrent::download::{
    assemble_pieces, calculate_block_size, check_piece, distribute_pieces, piece_requests, BLOCK_MAX,
};
use codecrafters_bittorrent::torrent::PiecesHashes;
use codecrafters_bittorrent::types::{HashId, TorrentError};

#[test]
fn block_sizes() {
    assert_eq!(calculate_block_size(40000, 0, 3), BLOCK_MAX);
    assert_eq!(calculate_block_size(40000, 2, 3), 40000 - 2 * 16384);
    assert_eq!(calculate_block_size(32768, 1, 2), 16384);
}

#[test]
fn piece_requests_tile_the_piece() {
    let r = piece_requests(3, 40000);
    assert_eq!(r.len(), 3);
    let parts: Vec<(u32, u32, u32)> = r.iter().map(|x| (x.index(), x.begin(), x.length())).collect();
    assert_eq!(parts, vec![(3, 0, 16384), (3, 16384, 16384), (3, 32768, 7232)]);
    assert_eq!(parts.iter().map(|p| p.2 as usize).sum::<usize>(), 40000);
}

#[test]
fn piece_requests_for_an_empty_piece() {
    assert!(piece_requests(0, 0).is_empty());
}

#[test]
fn pieces_go_round_robin() {
    let bytes: Vec<u8> = (0u8..100).collect();
    let pieces = PiecesHashes::from_bytes(&bytes).unwrap();
    let d = distribute_pieces(&pieces, 2);
    assert_eq!(d.len(), 2);
    assert_eq!(d[0].iter().map(|p| p.0).collect::<Vec<_>>(), vec![0, 2, 4]);
    assert_eq!(d[1].iter().map(|p| p.0).collect::<Vec<_>>(), vec![1, 3]);
    assert_eq!(d[1][0].1, pieces.get(1));
    assert!(distribute_pieces(&pieces, 0).is_empty());
}

#[test]
fn file_is_pieces_in_order() {
    let blocks = vec![(2usize, vec![5u8]), (0, vec![1, 2]), (1, vec![3]), (1, vec![4])];
    assert_eq!(assemble_pieces(3, &blocks), vec![1, 2, 4, 5]);
    assert_eq!(assemble_pieces(4, &blocks), vec![1, 2, 4, 5]);
}

#[test]
fn piece_hash_check() {
    let hash = HashId::from_hex("aaf4c61ddcc5e8a2dabede0f3b482cd9aea9434d").unwrap();
    assert!(check_piece(b"hello", &hash).is_ok());
    assert_eq!(check_piece(b"hellO", &hash).unwrap_err(), TorrentError::HashMismatch);
}
