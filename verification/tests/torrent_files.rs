use codecrafters_bittorrent::bencode::{self, BencodeValue};
use codecrafters_bittorrent::torrent::{PiecesHashes, Torrent, TorrentInfo};
use codecrafters_bittorrent::types::{HashId, TorrentError};

fn pieces_bytes() -> Vec<u8> {
    (0u8..40).collect()
}

fn info_bytes() -> Vec<u8> {
    let mut b = b"d6:lengthi40000e4:name10:sample.txt12:piece lengthi32768e6:pieces40:".to_vec();
    b.extend(pieces_bytes());
    b.push(b'e');
    b
}

fn sample_info() -> TorrentInfo {
    TorrentInfo {
        name: "sample.txt".to_string(),
        piece_length: 32768,
        pieces: PiecesHashes::from_bytes(&pieces_bytes()).unwrap(),
        length: 40000,
    }
}

#[test]
fn pieces_from_bytes_cuts_twenty_byte_hashes() {
    let p = PiecesHashes::from_bytes(&pieces_bytes()).unwrap();
    assert_eq!(p.len(), 2);
    assert_eq!(p.get(1).0[0], 20);
    assert_eq!(p.to_bytes(), pieces_bytes());
    assert_eq!(p.iter().count(), 2);
}

#[test]
fn pieces_from_bytes_rejects_partial_hash() {
    assert_eq!(PiecesHashes::from_bytes(&[1, 2, 3]).unwrap_err(), TorrentError::InvalidField);
}

#[test]
fn encoded_hashes_are_lower_case_hex() {
    let p = PiecesHashes::from_bytes(&pieces_bytes()).unwrap();
    let hashes = p.encoded_hashes();
    assert_eq!(hashes[0], "000102030405060708090a0b0c0d0e0f10111213");
    assert_eq!(hashes[1], "1415161718191a1b1c1d1e1f2021222324252627");
}

#[test]
fn info_hash_is_sha1_of_bencoded_info() {
    let info = sample_info();
    let expected = HashId::from_hex("cac5cf29dcdc1de520d9fff821a60e6c6a55cf07").unwrap();
    assert_eq!(info.hash(), expected);
    assert_eq!(info.encoded_hash(), "%ca%c5%cf%29%dc%dc%1d%e5%20%d9%ff%f8%21%a6%0e%6c%6a%55%cf%07");
}

#[test]
fn info_bencode_is_sorted_dictionary() {
    assert_eq!(bencode::encode(&sample_info().to_bencode()), info_bytes());
}

#[test]
fn info_reads_back_from_its_bencode() {
    let v = bencode::decode(&info_bytes()).unwrap();
    let info = TorrentInfo::from_bencode(&v).unwrap();
    assert_eq!(info.name, "sample.txt");
    assert_eq!(info.piece_length, 32768);
    assert_eq!(info.length, 40000);
    assert_eq!(info.pieces.to_bytes(), pieces_bytes());
}

#[test]
fn info_missing_field() {
    let v = bencode::decode(b"d4:name1:ae").unwrap();
    assert_eq!(TorrentInfo::from_bencode(&v).unwrap_err(), TorrentError::MissingField);
}

#[test]
fn info_invalid_field_comes_before_missing() {
    let v = bencode::decode(b"d6:lengthi-1ee").unwrap();
    assert_eq!(TorrentInfo::from_bencode(&v).unwrap_err(), TorrentError::InvalidField);
}

#[test]
fn info_from_list_needs_four_items() {
    let v = bencode::decode(b"l1:ai5ee").unwrap();
    assert_eq!(TorrentInfo::from_bencode(&v).unwrap_err(), TorrentError::InvalidLength);
}

#[test]
fn info_pieces_may_be_a_list_of_bytes() {
    let mut b = b"d6:lengthi1e4:name1:a12:piece lengthi1e6:piecesl".to_vec();
    for i in 0..20 {
        b.extend(format!("i{}e", i).as_bytes());
    }
    b.extend(b"ee");
    let info = TorrentInfo::from_bencode(&bencode::decode(&b).unwrap()).unwrap();
    assert_eq!(info.pieces.to_bytes(), (0u8..20).collect::<Vec<u8>>());
}

#[test]
fn piece_sizes_cover_the_file() {
    let info = sample_info();
    assert_eq!(info.calculate_piece_size(0), 32768);
    assert_eq!(info.calculate_piece_size(1), 40000 - 32768);
}

#[test]
fn torrent_file_reads_announce_and_info() {
    let mut b = b"d8:announce23:http://tracker/announce4:info".to_vec();
    b.extend(info_bytes());
    b.push(b'e');
    let t = Torrent::from_bytes(&b).unwrap();
    assert_eq!(t.announce, "http://tracker/announce");
    assert_eq!(t.info.length, 40000);
}

#[test]
fn torrent_file_that_is_not_bencode() {
    assert_eq!(Torrent::from_bytes(b"x").unwrap_err(), TorrentError::Bencode);
}

#[test]
fn torrent_file_bad_announce() {
    let v = bencode::decode(b"d8:announcei1ee").unwrap();
    assert_eq!(Torrent::from_bencode(&v).unwrap_err(), TorrentError::InvalidField);
    let v = BencodeValue::Int(3);
    assert_eq!(Torrent::from_bencode(&v).unwrap_err(), TorrentError::InvalidField);
}

#[test]
fn piece_bytes_written_back_unchanged() {
    let bytes: Vec<u8> = (0u8..60).rev().collect();
    let p = PiecesHashes::from_bytes(&bytes).unwrap();
    assert_eq!(p.len(), 3);
    assert_eq!(p.get(2).0.to_vec(), bytes[40..60].to_vec());
    assert_eq!(p.to_bytes(), bytes);
}
