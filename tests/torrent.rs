use bittorrent_core::decode::{decode, DecodeError};
use bittorrent_core::handshake::{build_handshake, parse_handshake, validate_handshake};
use bittorrent_core::metainfo::{extract_torrent_info, piece_hashes, ExtractError, Field};
use bittorrent_core::tracker::{
    peers_from_response, percent_encode_all, split_peers, Peer, TrackerError, TrackerRequest,
};

fn sample_info() -> Vec<u8> {
    let mut info = b"d6:lengthi92063e4:name10:sample.txt12:piece lengthi32768e6:pieces60:".to_vec();
    info.extend(0u8..60);
    info.push(b'e');
    info
}

fn sample_document() -> Vec<u8> {
    let mut doc = b"d8:announce31:http://tracker.example/announce4:info".to_vec();
    doc.extend(sample_info());
    doc.push(b'e');
    doc
}

#[test]
fn content_hash_matches_reference() {
    let doc = decode(&sample_document()).unwrap();
    let t = extract_torrent_info(&doc).unwrap();
    assert_eq!(t.announce, "http://tracker.example/announce");
    assert_eq!(t.length, 92063);
    assert_eq!(t.info_hash.len(), 20);
    assert_eq!(t.info_hash_hex(), "f519c3a24144a8649e58efc3e359b51a386054d6");
}

#[test]
fn extraction_errors_name_field() {
    let missing = decode(&b"d4:infod6:lengthi1eee".to_vec()).unwrap();
    assert!(matches!(extract_torrent_info(&missing), Err(ExtractError::FieldMissing(Field::Announce))));
    let no_info = decode(&b"d8:announce1:xe".to_vec()).unwrap();
    assert!(matches!(extract_torrent_info(&no_info), Err(ExtractError::FieldMissing(Field::Info))));
    let bad_info = decode(&b"d8:announce1:x4:infoi3ee".to_vec()).unwrap();
    assert!(matches!(extract_torrent_info(&bad_info), Err(ExtractError::FieldWrongType(Field::Info))));
    let neg = decode(&b"d8:announce1:x4:infod6:lengthi-1eee".to_vec()).unwrap();
    assert!(matches!(extract_torrent_info(&neg), Err(ExtractError::FieldWrongType(Field::Length))));
    let no_len = decode(&b"d8:announce1:x4:infodee".to_vec()).unwrap();
    assert!(matches!(extract_torrent_info(&no_len), Err(ExtractError::FieldMissing(Field::Length))));
    let bad_url = decode(&b"d8:announce1:\xff4:infod6:lengthi1eee".to_vec()).unwrap();
    assert!(matches!(extract_torrent_info(&bad_url), Err(ExtractError::FieldWrongType(Field::Announce))));
    let not_dict = decode(&b"i1e".to_vec()).unwrap();
    assert!(matches!(extract_torrent_info(&not_dict), Err(ExtractError::NotADictionary)));
}

#[test]
fn pieces_split_into_hashes() {
    let info = decode(&sample_info()).unwrap();
    let hs = piece_hashes(&info).unwrap();
    assert_eq!(hs.len(), 3);
    assert_eq!(hs[1], (20u8..40).collect::<Vec<u8>>());
    let bad = decode(&b"d6:pieces3:abce".to_vec()).unwrap();
    assert!(matches!(piece_hashes(&bad), Err(ExtractError::FieldWrongType(Field::Pieces))));
}

#[test]
fn handshake_layout() {
    let hash: Vec<u8> = (1u8..=20).collect();
    let id = b"00112233445566778899".to_vec();
    let h = build_handshake(&hash, &id);
    assert_eq!(h.len(), 68);
    assert_eq!(h[0], 19);
    assert_eq!(&h[1..20], b"BitTorrent protocol");
    assert_eq!(&h[20..28], &[0u8; 8]);
    assert_eq!(&h[28..48], &hash[..]);
    assert_eq!(&h[48..68], &id[..]);
    assert!(validate_handshake(&h, &hash));
    assert!(!validate_handshake(&h, &vec![0u8; 20]));
}

#[test]
fn handshake_reply_gives_last_twenty_bytes() {
    let mut reply = vec![0xeeu8; 48];
    reply.extend(100u8..120);
    assert_eq!(parse_handshake(&reply).unwrap(), (100u8..120).collect::<Vec<u8>>());
    let mut longer = vec![7u8; 80];
    longer.extend(200u8..220);
    assert_eq!(parse_handshake(&longer).unwrap(), (200u8..220).collect::<Vec<u8>>());
    assert!(parse_handshake(&vec![0u8; 67]).is_none());
}

#[test]
fn percent_encodes_every_byte() {
    assert_eq!(percent_encode_all(&vec![0x41, 0xff, 0x0a]), b"%41%FF%0A".to_vec());
}

#[test]
fn tracker_query_string() {
    let req = TrackerRequest {
        info_hash: vec![0x12, 0xab],
        peer_id: b"00112233445566778899".to_vec(),
        port: 6881,
        uploaded: 0,
        downloaded: 0,
        left: 92063,
        compact: true,
    };
    let q = String::from_utf8(req.to_query_string()).unwrap();
    assert_eq!(
        q,
        "info_hash=%12%AB&peer_id=00112233445566778899&port=6881&uploaded=0&downloaded=0&left=92063&compact=1"
    );
    let req2 = TrackerRequest { peer_id: b"a b/".to_vec(), compact: false, ..req };
    let q2 = String::from_utf8(req2.to_query_string()).unwrap();
    assert!(q2.contains("&peer_id=a%20b%2F&"));
    assert!(q2.ends_with("&compact=0"));
}

#[test]
fn compact_peers_split() {
    let b = vec![192, 168, 1, 2, 0x1a, 0xe1, 10, 0, 0, 1, 0, 80];
    let ps = split_peers(&b).unwrap();
    assert_eq!(ps, vec![Peer { ip: [192, 168, 1, 2], port: 6881 }, Peer { ip: [10, 0, 0, 1], port: 80 }]);
    assert!(split_peers(&vec![1, 2, 3]).is_none());
}

#[test]
fn tracker_response_peers() {
    let mut body = b"d8:intervali900e5:peers6:".to_vec();
    body.extend([127, 0, 0, 1, 0x1a, 0xe1]);
    body.push(b'e');
    let ps = peers_from_response(&body).unwrap();
    assert_eq!(ps, vec![Peer { ip: [127, 0, 0, 1], port: 6881 }]);
    assert!(matches!(peers_from_response(&b"x".to_vec()), Err(TrackerError::Decode(DecodeError::UnexpectedLeadingByte))));
    assert!(matches!(
        peers_from_response(&b"de".to_vec()),
        Err(TrackerError::Extract(ExtractError::FieldMissing(Field::Peers)))
    ));
    assert!(matches!(
        peers_from_response(&b"d5:peers2:abe".to_vec()),
        Err(TrackerError::Extract(ExtractError::FieldWrongType(Field::Peers)))
    ));
    assert!(matches!(
        peers_from_response(&b"d5:peersi1ee".to_vec()),
        Err(TrackerError::Extract(ExtractError::FieldWrongType(Field::Peers)))
    ));
}
