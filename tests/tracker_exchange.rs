use bittorrent::bencode::BencodeError;
use bittorrent::tracker::{parse_peers, parse_tracker_response, Peer, TrackerError, TrackerRequest};

#[test]
fn two_peers_from_twelve_bytes() {
    let peers = parse_peers(&[127, 0, 0, 1, 0x1a, 0xe1, 10, 0, 0, 2, 0, 80]);
    assert_eq!(
        peers,
        vec![
            Peer { host: [127, 0, 0, 1], port: 6881 },
            Peer { host: [10, 0, 0, 2], port: 80 },
        ]
    );
}

#[test]
fn partial_record_is_dropped() {
    let peers = parse_peers(&[1, 2, 3, 4, 0, 1, 9, 9, 9]);
    assert_eq!(peers, vec![Peer { host: [1, 2, 3, 4], port: 1 }]);
    assert!(parse_peers(&[1, 2, 3]).is_empty());
}

#[test]
fn tracker_response_peers_and_interval() {
    let mut body = b"d8:intervali1800e5:peers12:".to_vec();
    body.extend_from_slice(&[127, 0, 0, 1, 0x1a, 0xe1, 10, 0, 0, 2, 0, 80]);
    body.push(b'e');
    let r = parse_tracker_response(&body).unwrap();
    assert_eq!(r.interval, 1800);
    assert_eq!(r.peers.len(), 2);
    assert_eq!(r.peers[0], Peer { host: [127, 0, 0, 1], port: 6881 });
}

#[test]
fn tracker_response_without_peers() {
    assert_eq!(
        parse_tracker_response(b"d8:intervali1800ee").map(|r| r.interval),
        Err(TrackerError::NoPeersAvailable)
    );
    assert_eq!(
        parse_tracker_response(b"d5:peers0:e").map(|r| r.interval),
        Err(TrackerError::NoPeersAvailable)
    );
    assert_eq!(
        parse_tracker_response(b"le").map(|r| r.interval),
        Err(TrackerError::NotADictionary)
    );
    assert_eq!(
        parse_tracker_response(b"d5:peers").map(|r| r.interval),
        Err(TrackerError::Bencode(BencodeError::UnexpectedEof))
    );
}

#[test]
fn new_request_defaults() {
    let r = TrackerRequest::new("http://t.test/announce".to_string(), [1; 20], [2; 20], 99);
    assert_eq!(r.port, 6881);
    assert_eq!(r.uploaded, 0);
    assert_eq!(r.downloaded, 0);
    assert_eq!(r.left, 99);
    assert_eq!(r.compact, 1);
}

#[test]
fn info_hash_percent_encoding() {
    let mut hash = [0u8; 20];
    hash[0] = 0xd6;
    hash[1] = 0x9f;
    hash[19] = 0x0a;
    let r = TrackerRequest::new("http://t.test/announce".to_string(), hash, [b'a'; 20], 0);
    let text = r.url_encode_info_hash();
    assert_eq!(text.len(), 60);
    assert!(text.starts_with("%d6%9f%00"));
    assert!(text.ends_with("%00%0a"));
}

#[test]
fn announce_url() {
    let r = TrackerRequest::new(
        "http://t.test:6969/announce".to_string(),
        [0xab; 20],
        *b"KS001122334455667788",
        1234,
    );
    let url = r.url_encode().unwrap();
    let (base, query) = url.split_once('?').unwrap();
    assert_eq!(base, "http://t.test:6969/announce");
    let mut params: Vec<&str> = query.split('&').collect();
    params.sort();
    let hash = "%ab".repeat(20);
    let expected_hash = format!("info_hash={}", hash);
    let peer: String = b"KS001122334455667788".iter().map(|b| format!("%{:02x}", b)).collect();
    let expected_peer = format!("peer_id={}", peer);
    let mut expected = vec![
        "compact=1",
        "downloaded=0",
        expected_hash.as_str(),
        "left=1234",
        expected_peer.as_str(),
        "port=6881",
        "uploaded=0",
    ];
    expected.sort();
    assert_eq!(params, expected);
}

#[test]
fn announce_url_needs_a_host() {
    let r = TrackerRequest::new("not a url".to_string(), [0; 20], [0; 20], 0);
    assert_eq!(r.url_encode(), None);
}

#[test]
fn announce_url_keeps_the_path_and_escapes_the_peer_id() {
    let mut id = [b'a'; 20];
    id[0] = b'&';
    id[1] = 0xff;
    let r = TrackerRequest::new("http://t.io/announce".to_string(), [0; 20], id, 5);
    let url = r.url_encode().unwrap();
    let (base, query) = url.split_once('?').unwrap();
    assert_eq!(base, "http://t.io/announce");
    assert!(query.split('&').any(|p| p.starts_with("peer_id=%26%ff%61")));
    assert_eq!(query.split('&').count(), 7);
}
