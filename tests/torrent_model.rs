use bittorrent::digest::{sha1_bytes, sha1_hex};
use bittorrent::torrent::{parse_torrent_file, Node, TorrentError};
use bittorrent::bencode::BencodeError;

fn torrent_bytes(length: u32, piece_length: u32, digests: usize) -> Vec<u8> {
    let mut info = Vec::new();
    info.extend_from_slice(format!("d6:lengthi{}e4:name4:file", length).as_bytes());
    info.extend_from_slice(format!("12:piece lengthi{}e", piece_length).as_bytes());
    info.extend_from_slice(format!("6:pieces{}:", digests * 20).as_bytes());
    for i in 0..digests {
        info.extend_from_slice(&[i as u8 + 1; 20]);
    }
    info.push(b'e');
    let mut out = b"d8:announce21:http://tracker.test/a4:info".to_vec();
    out.extend_from_slice(&info);
    out.push(b'e');
    out
}

#[test]
fn parses_descriptor_fields() {
    let data = torrent_bytes(40000, 16384, 3);
    let t = parse_torrent_file(&data).unwrap();
    assert_eq!(t.announce, Some(b"http://tracker.test/a".to_vec()));
    assert_eq!(t.info.name, b"file".to_vec());
    assert_eq!(t.info.length, 40000);
    assert_eq!(t.info.piece_length, 16384);
    assert_eq!(t.number_of_pieces(), 3);
    assert_eq!(t.piece_size(0), 16384);
    assert_eq!(t.piece_size(2), 40000 - 2 * 16384);
    let hashes = t.piece_hashes();
    assert_eq!(hashes.len(), 3);
    assert_eq!(hashes[1], vec![2u8; 20]);
    assert_eq!(t.piece_hash(2), vec![3u8; 20]);
}

#[test]
fn piece_count_is_ceiling() {
    let t = parse_torrent_file(&torrent_bytes(32768, 16384, 2)).unwrap();
    assert_eq!(t.number_of_pieces(), 2);
    assert_eq!(t.piece_size(1), 16384);
    let t = parse_torrent_file(&torrent_bytes(1, 16384, 1)).unwrap();
    assert_eq!(t.number_of_pieces(), 1);
    assert_eq!(t.piece_size(0), 1);
}

#[test]
fn info_hash_is_digest_of_info_bytes() {
    let data = b"d4:infod6:lengthi5e4:name1:x12:piece lengthi16384e6:pieces20:aaaaaaaaaaaaaaaaaaaaee";
    let t = parse_torrent_file(data).unwrap();
    let expected = b"d6:lengthi5e4:name1:x12:piece lengthi16384e6:pieces20:aaaaaaaaaaaaaaaaaaaae";
    assert_eq!(t.info_bencoded, expected.to_vec());
    assert_eq!(t.info_hash(), sha1_bytes(expected.to_vec()));
    assert_eq!(sha1_hex(expected.to_vec()), "67e956e7f453e8f1ec1989b7f2fb135490164bd5");
    assert_eq!(t.announce, None);
}

#[test]
fn missing_pieces_is_missing_field() {
    let data = b"d4:infod6:lengthi5e12:piece lengthi16384eee";
    assert_eq!(parse_torrent_file(data), Err(TorrentError::MissingField));
}

#[test]
fn missing_piece_length_is_missing_field() {
    let data = b"d4:infod6:lengthi5e6:pieces20:aaaaaaaaaaaaaaaaaaaaee";
    assert_eq!(parse_torrent_file(data), Err(TorrentError::MissingField));
}

#[test]
fn missing_info_is_missing_field() {
    assert_eq!(parse_torrent_file(b"d3:fooi1ee"), Err(TorrentError::MissingField));
}

#[test]
fn ragged_piece_table_is_invalid() {
    let data = b"d4:infod6:lengthi5e12:piece lengthi16384e6:pieces21:aaaaaaaaaaaaaaaaaaaaaee";
    assert_eq!(parse_torrent_file(data), Err(TorrentError::InvalidPieceTable));
}

#[test]
fn piece_table_with_wrong_count_is_invalid() {
    assert_eq!(
        parse_torrent_file(&torrent_bytes(40000, 16384, 2)),
        Err(TorrentError::InvalidPieceTable)
    );
}

#[test]
fn zero_piece_length_is_invalid_field() {
    let data = b"d4:infod6:lengthi5e12:piece lengthi0e6:pieces20:aaaaaaaaaaaaaaaaaaaaee";
    assert_eq!(parse_torrent_file(data), Err(TorrentError::InvalidField));
}

#[test]
fn non_dictionary_is_refused() {
    assert_eq!(parse_torrent_file(b"i5e"), Err(TorrentError::NotADictionary));
    assert_eq!(
        parse_torrent_file(b""),
        Err(TorrentError::Bencode(BencodeError::UnexpectedEof))
    );
}

#[test]
fn sha1_hex_of_abc() {
    assert_eq!(sha1_hex(b"abc".to_vec()), "a9993e364706816aba3e25717850c26c9cd0d89d");
}

#[test]
fn info_hash_uses_canonical_key_order() {
    let unsorted = b"d4:infod4:name1:x6:lengthi5e6:pieces20:aaaaaaaaaaaaaaaaaaaa12:piece lengthi16384eee";
    let t = parse_torrent_file(unsorted).unwrap();
    let canonical = b"d6:lengthi5e4:name1:x12:piece lengthi16384e6:pieces20:aaaaaaaaaaaaaaaaaaaae";
    assert_eq!(t.info_bencoded, canonical.to_vec());
    assert_eq!(sha1_hex(t.info_bencoded.clone()), "67e956e7f453e8f1ec1989b7f2fb135490164bd5");
}

fn multi_file_torrent(files: &str, digests: usize) -> Vec<u8> {
    let mut out = format!("d4:infod5:files{}4:name3:dir12:piece lengthi16384e", files).into_bytes();
    out.extend_from_slice(format!("6:pieces{}:", digests * 20).as_bytes());
    out.extend_from_slice(&vec![7u8; digests * 20]);
    out.extend_from_slice(b"ee");
    out
}

#[test]
fn multi_file_total_length() {
    let files = "ld6:lengthi10000e4:pathl1:a5:b.txteed6:lengthi30000e4:pathl1:ceee";
    let t = parse_torrent_file(&multi_file_torrent(files, 3)).unwrap();
    assert_eq!(t.info.length, 40000);
    assert_eq!(t.number_of_pieces(), 3);
    let fs = t.info.files.unwrap();
    assert_eq!(fs.len(), 2);
    assert_eq!(fs[0].length, 10000);
    assert_eq!(fs[0].path, vec![b"a".to_vec(), b"b.txt".to_vec()]);
    assert_eq!(fs[1].path, vec![b"c".to_vec()]);
}

#[test]
fn malformed_file_entry_is_invalid_field() {
    let files = "ld6:lengthi10000e4:pathl1:aeed4:pathl1:ceee";
    assert_eq!(
        parse_torrent_file(&multi_file_torrent(files, 1)),
        Err(TorrentError::InvalidField)
    );
    let files = "ld6:lengthi-1e4:pathl1:aeee";
    assert_eq!(
        parse_torrent_file(&multi_file_torrent(files, 0)),
        Err(TorrentError::InvalidField)
    );
}

#[test]
fn dht_nodes_are_read() {
    let data = b"d4:infod6:lengthi5e12:piece lengthi16384e6:pieces20:aaaaaaaaaaaaaaaaaaaae5:nodesll9:127.0.0.1i6881eeee";
    let t = parse_torrent_file(data).unwrap();
    assert_eq!(t.nodes, Some(vec![Node(b"127.0.0.1".to_vec(), 6881)]));
    let bad = b"d4:infod6:lengthi5e12:piece lengthi16384e6:pieces20:aaaaaaaaaaaaaaaaaaaae5:nodesli1eee";
    assert_eq!(parse_torrent_file(bad), Err(TorrentError::InvalidField));
    let none = b"d4:infod6:lengthi5e12:piece lengthi16384e6:pieces20:aaaaaaaaaaaaaaaaaaaaee";
    assert_eq!(parse_torrent_file(none).unwrap().nodes, None);
}
