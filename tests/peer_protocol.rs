use bittorrent::digest::sha1_bytes;
use bittorrent::peer::{
    assemble_piece, available_pieces, block_requests, decode_peer_message, frame_length,
    generate_peer_id, init_handshake, interested_message, parse_handshake, request_message,
    verify_piece, BlockRequest, PeerError, PeerMessage, PeerSession, SessionPhase,
};
use bittorrent::torrent::parse_torrent_file;

#[test]
fn handshake_layout() {
    let peer_id = *b"KS001122334455667788";
    let h = init_handshake([0u8; 20], peer_id);
    assert_eq!(h.len(), 68);
    assert_eq!(h[0], 19);
    assert_eq!(&h[1..20], b"BitTorrent protocol");
    assert_eq!(&h[20..28], &[0u8; 8]);
    assert_eq!(&h[28..48], &[0u8; 20]);
    assert_eq!(&h[48..68], &peer_id);
}

#[test]
fn handshake_reply_gives_remote_id() {
    let mut reply = init_handshake([7u8; 20], [0u8; 20]).to_vec();
    for (i, b) in reply[48..68].iter_mut().enumerate() {
        *b = i as u8;
    }
    let expected: Vec<u8> = (0..20).collect();
    assert_eq!(parse_handshake(&reply).unwrap().to_vec(), expected);
}

#[test]
fn short_handshake_is_incomplete() {
    let reply = init_handshake([1u8; 20], [2u8; 20]);
    assert_eq!(parse_handshake(&reply[..40]), Err(PeerError::HandshakeIncomplete));
    assert_eq!(parse_handshake(&[]), Err(PeerError::HandshakeIncomplete));
}

#[test]
fn frame_length_is_big_endian() {
    assert_eq!(frame_length([0, 0, 0x40, 0x09]), 16393);
    assert_eq!(frame_length([1, 2, 3, 4]), 0x01020304);
}

#[test]
fn decodes_unchoke_and_bitfield() {
    let (m, n) = decode_peer_message(&[0, 0, 0, 1, 1, 99]).unwrap();
    assert_eq!(n, 5);
    assert_eq!(m, PeerMessage { length_prefix: 1, id: 1, payload: None });
    let (m, n) = decode_peer_message(&[0, 0, 0, 2, 5, 0b1010_0000]).unwrap();
    assert_eq!(n, 6);
    assert_eq!(m.id, 5);
    assert_eq!(m.payload, Some(vec![0b1010_0000]));
}

#[test]
fn truncated_frames_fail() {
    assert_eq!(decode_peer_message(&[0, 0, 0]), Err(PeerError::TruncatedMessage));
    assert_eq!(decode_peer_message(&[0, 0, 0, 9, 7, 1, 2]), Err(PeerError::TruncatedMessage));
}

#[test]
fn malformed_frames_fail() {
    assert_eq!(decode_peer_message(&[0, 0, 0, 0]), Err(PeerError::MalformedMessage));
    assert_eq!(decode_peer_message(&[0, 0, 0, 1, 20]), Err(PeerError::MalformedMessage));
}

#[test]
fn interested_and_request_messages() {
    assert_eq!(interested_message(), [0, 0, 0, 1, 2]);
    let r = request_message(1, 16384, 3616);
    assert_eq!(&r[..], &[0, 0, 0, 13, 6, 0, 0, 0, 1, 0, 0, 0x40, 0, 0, 0, 0x0e, 0x20]);
}

#[test]
fn three_whole_blocks() {
    let r = block_requests(4, 49152);
    assert_eq!(r.len(), 3);
    for (i, b) in r.iter().enumerate() {
        assert_eq!(*b, BlockRequest { piece_index: 4, offset: i as u32 * 16384, length: 16384 });
    }
}

#[test]
fn short_last_block() {
    let r = block_requests(0, 20000);
    assert_eq!(
        r,
        vec![
            BlockRequest { piece_index: 0, offset: 0, length: 16384 },
            BlockRequest { piece_index: 0, offset: 16384, length: 3616 },
        ]
    );
    assert!(block_requests(0, 0).is_empty());
}

fn piece_message(index: u32, begin: u32, data: &[u8]) -> PeerMessage {
    let mut payload = index.to_be_bytes().to_vec();
    payload.extend_from_slice(&begin.to_be_bytes());
    payload.extend_from_slice(data);
    PeerMessage { length_prefix: 9 + data.len() as u32, id: 7, payload: Some(payload) }
}

#[test]
fn assembles_blocks_in_order() {
    let requests = vec![
        BlockRequest { piece_index: 0, offset: 0, length: 3 },
        BlockRequest { piece_index: 0, offset: 3, length: 2 },
    ];
    let blocks = vec![piece_message(0, 0, b"abc"), piece_message(0, 3, b"de")];
    assert_eq!(assemble_piece(&requests, &blocks), Ok(b"abcde".to_vec()));
}

#[test]
fn assembly_refuses_other_messages() {
    let blocks = vec![
        piece_message(0, 0, b"abc"),
        PeerMessage { length_prefix: 1, id: 1, payload: None },
    ];
    let requests = block_requests(0, 6);
    assert_eq!(assemble_piece(&requests, &blocks), Err(PeerError::MalformedMessage));
    let short = PeerMessage { length_prefix: 4, id: 7, payload: Some(vec![0, 0, 0]) };
    assert_eq!(assemble_piece(&requests, &vec![short]), Err(PeerError::MalformedMessage));
    // a block shorter or longer than its request is refused
    let one = block_requests(0, 4);
    assert_eq!(assemble_piece(&one, &vec![piece_message(0, 0, b"abc")]), Err(PeerError::MalformedMessage));
    assert_eq!(assemble_piece(&one, &vec![piece_message(0, 0, b"abcde")]), Err(PeerError::MalformedMessage));
    assert_eq!(assemble_piece(&one, &vec![piece_message(0, 0, b"abcd")]), Ok(b"abcd".to_vec()));
    // one answer per request
    assert_eq!(assemble_piece(&one, &vec![]), Err(PeerError::MalformedMessage));
}

#[test]
fn piece_digest_check() {
    let piece = b"abc".to_vec();
    let expected = sha1_bytes(piece.clone());
    assert!(verify_piece(piece.clone(), &expected));
    assert!(!verify_piece(b"abd".to_vec(), &expected));
    assert!(!verify_piece(piece, &expected[..19]));
}

#[test]
fn bitfield_pieces() {
    assert_eq!(available_pieces(&[0b1010_0000, 0b0000_0001]), vec![0, 2, 15]);
    assert!(available_pieces(&[]).is_empty());
}

#[test]
fn downloads_one_piece_end_to_end() {
    let data: Vec<u8> = (0..16384u32).map(|i| (i % 251) as u8).collect();
    let digest = sha1_bytes(data.clone());
    let mut torrent = b"d4:infod6:lengthi16384e4:name1:x12:piece lengthi16384e6:pieces20:".to_vec();
    torrent.extend_from_slice(&digest);
    torrent.extend_from_slice(b"ee");
    let t = parse_torrent_file(&torrent).unwrap();
    assert_eq!(t.number_of_pieces(), 1);

    let requests = block_requests(0, t.piece_size(0));
    assert_eq!(requests.len(), 1);

    // the peer's reply to the one request, as it comes off the wire
    let mut wire = (9 + data.len() as u32).to_be_bytes().to_vec();
    wire.push(7);
    wire.extend_from_slice(&0u32.to_be_bytes());
    wire.extend_from_slice(&0u32.to_be_bytes());
    wire.extend_from_slice(&data);

    let mut blocks = Vec::new();
    let mut at = 0;
    for _ in &requests {
        let (m, n) = decode_peer_message(&wire[at..]).unwrap();
        at += n;
        blocks.push(m);
    }
    let piece = assemble_piece(&requests, &blocks).unwrap();
    assert_eq!(piece, data);
    assert_eq!(sha1_bytes(piece.clone()).to_vec(), t.piece_hash(0));
    assert!(verify_piece(piece, &t.piece_hash(0)));
}

#[test]
fn peer_id_is_fixed() {
    assert_eq!(&generate_peer_id(), b"KS001122334455667788");
}

#[test]
fn session_walks_through_interest() {
    let mut reply = init_handshake([0u8; 20], [9u8; 20]).to_vec();
    reply[48] = 1;
    let mut s = PeerSession::start(&reply).unwrap();
    assert_eq!(s.remote_peer_id[0], 1);
    assert_eq!(s.phase, SessionPhase::AwaitingBitfield);
    assert!(s.choked);
    assert!(!s.interested);

    let bitfield = PeerMessage { length_prefix: 2, id: 5, payload: Some(vec![0b0110_0000]) };
    assert_eq!(s.on_message(&bitfield), Ok(Some([0, 0, 0, 1, 2])));
    assert!(s.interested);
    assert_eq!(s.phase, SessionPhase::AwaitingUnchoke);

    let unchoke = PeerMessage { length_prefix: 1, id: 1, payload: None };
    assert_eq!(s.on_message(&unchoke), Ok(None));
    assert_eq!(s.phase, SessionPhase::Ready);
    assert!(!s.choked);

    assert_eq!(s.pieces_to_fetch(8), vec![1, 2]);
    assert_eq!(s.pieces_to_fetch(2), vec![1]);

    let choke = PeerMessage { length_prefix: 1, id: 0, payload: None };
    assert_eq!(s.on_message(&choke), Ok(None));
    assert!(s.choked);
}

#[test]
fn session_needs_bitfield_first() {
    let reply = init_handshake([0u8; 20], [9u8; 20]);
    let mut s = PeerSession::start(&reply).unwrap();
    let unchoke = PeerMessage { length_prefix: 1, id: 1, payload: None };
    assert_eq!(s.on_message(&unchoke), Err(PeerError::MalformedMessage));
    assert_eq!(s.phase, SessionPhase::AwaitingBitfield);
    assert_eq!(PeerSession::start(&reply[..40]), Err(PeerError::HandshakeIncomplete));
}
