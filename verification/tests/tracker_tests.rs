use defttorrent::peers::parse_peers;
use defttorrent::tracker::{
    build_announce_request, build_connect_request, parse_announce_response, parse_connect_response,
    parse_url, retry_timeout_secs, AnnounceReply, ConnectReply, SessionState, TrackerAction,
    TrackerError, TrackerSession,
};

fn session_txid(s: &TrackerSession) -> u32 {
    match &s.state {
        SessionState::Connecting { transaction_id, .. } => *transaction_id,
        SessionState::Announcing { transaction_id, .. } => *transaction_id,
        other => panic!("no transaction id in {:?}", other),
    }
}

fn connect_response(txid: u32, connection_id: u64) -> Vec<u8> {
    let mut buf = Vec::new();
    buf.extend_from_slice(&0u32.to_be_bytes());
    buf.extend_from_slice(&txid.to_be_bytes());
    buf.extend_from_slice(&connection_id.to_be_bytes());
    buf
}

#[test]
fn parses_a_full_tracker_url() {
    let (host, port, path) = parse_url("http://tracker.example.com:1337/announce").unwrap();
    assert_eq!(host, "tracker.example.com");
    assert_eq!(port, 1337);
    assert_eq!(path, "announce");
}

#[test]
fn url_without_port_defaults_to_6969() {
    let (host, port, path) = parse_url("http://tracker.example.com/announce").unwrap();
    assert_eq!(host, "tracker.example.com");
    assert_eq!(port, 6969);
    assert_eq!(path, "announce");
}

#[test]
fn url_without_path_has_empty_path() {
    let (host, port, path) = parse_url("http://tracker.example.com:80").unwrap();
    assert_eq!(host, "tracker.example.com");
    assert_eq!(port, 80);
    assert_eq!(path, "");
}

#[test]
fn url_without_http_prefix_is_rejected() {
    assert_eq!(parse_url("udp://tracker.example.com/a").unwrap_err(), TrackerError::UrlMalformed);
    assert_eq!(parse_url("short").unwrap_err(), TrackerError::UrlMalformed);
}

#[test]
fn url_with_bad_port_is_rejected() {
    assert_eq!(parse_url("http://host:99999/a").unwrap_err(), TrackerError::UrlMalformed);
    assert_eq!(parse_url("http://host:12x/a").unwrap_err(), TrackerError::UrlMalformed);
    assert_eq!(parse_url("http://host:/a").unwrap_err(), TrackerError::UrlMalformed);
}

#[test]
fn connect_request_has_the_documented_layout() {
    let packet = build_connect_request(0x01020304);
    assert_eq!(packet.len(), 16);
    assert_eq!(&packet[0..8], &[0x00, 0x00, 0x04, 0x17, 0x27, 0x10, 0x19, 0x80]);
    assert_eq!(&packet[8..12], &[0, 0, 0, 0]);
    assert_eq!(&packet[12..16], &[0x01, 0x02, 0x03, 0x04]);
}

#[test]
fn connect_response_with_matching_txid_is_accepted() {
    let buf = connect_response(77, 0x1122334455667788);
    let reply = parse_connect_response(&buf, 77);
    assert_eq!(reply, ConnectReply::Accepted { connection_id: 0x1122334455667788 });
}

#[test]
fn connect_response_with_mismatched_txid_is_stale() {
    let buf = connect_response(78, 5);
    assert_eq!(parse_connect_response(&buf, 77), ConnectReply::Stale);
}

#[test]
fn short_or_wrong_action_connect_response_is_malformed() {
    assert_eq!(parse_connect_response(&[0u8; 12], 77), ConnectReply::Malformed);
    let mut buf = connect_response(77, 5);
    buf[3] = 1; // action = announce, not connect
    assert_eq!(parse_connect_response(&buf, 77), ConnectReply::Malformed);
}

#[test]
fn announce_request_has_the_documented_layout() {
    let info_hash = [7u8; 20];
    let peer_id = [9u8; 20];
    let packet = build_announce_request(
        0x0102030405060708,
        0xAABBCCDD,
        &info_hash,
        &peer_id,
        1,
        2,
        3,
        0,
        0,
        0x11223344,
        -1,
        6881,
    );
    assert_eq!(packet.len(), 98);
    assert_eq!(&packet[0..8], &[1, 2, 3, 4, 5, 6, 7, 8]);
    assert_eq!(&packet[8..12], &[0, 0, 0, 1]);
    assert_eq!(&packet[12..16], &[0xAA, 0xBB, 0xCC, 0xDD]);
    assert_eq!(&packet[16..36], &[7u8; 20]);
    assert_eq!(&packet[36..56], &[9u8; 20]);
    assert_eq!(&packet[56..64], &1u64.to_be_bytes());
    assert_eq!(&packet[64..72], &2u64.to_be_bytes());
    assert_eq!(&packet[72..80], &3u64.to_be_bytes());
    assert_eq!(&packet[88..92], &[0x11, 0x22, 0x33, 0x44]);
    assert_eq!(&packet[92..96], &(-1i32).to_be_bytes());
    assert_eq!(&packet[96..98], &6881u16.to_be_bytes());
}

#[test]
fn twelve_peer_bytes_decode_to_two_peers() {
    let buf = [10u8, 0, 0, 1, 0x1A, 0xE1, 192, 168, 1, 2, 0x00, 0x50];
    let peers = parse_peers(&buf).unwrap();
    assert_eq!(peers.len(), 2);
    assert_eq!(peers[0].ip, [10, 0, 0, 1]);
    assert_eq!(peers[0].port, 6881);
    assert_eq!(peers[1].ip, [192, 168, 1, 2]);
    assert_eq!(peers[1].port, 80);
}

#[test]
fn thirteen_peer_bytes_are_rejected() {
    let buf = [0u8; 13];
    assert_eq!(parse_peers(&buf).unwrap_err(), TrackerError::PeerListMalformed);
}

#[test]
fn announce_response_decodes_peers() {
    let mut buf = Vec::new();
    buf.extend_from_slice(&1u32.to_be_bytes()); // action
    buf.extend_from_slice(&55u32.to_be_bytes()); // txid
    buf.extend_from_slice(&1800u32.to_be_bytes()); // interval
    buf.extend_from_slice(&3u32.to_be_bytes()); // leechers
    buf.extend_from_slice(&4u32.to_be_bytes()); // seeders
    buf.extend_from_slice(&[10, 0, 0, 1, 0x1A, 0xE1]);
    match parse_announce_response(&buf, 55) {
        AnnounceReply::Accepted { interval, leechers, seeders, peers } => {
            assert_eq!(interval, 1800);
            assert_eq!(leechers, 3);
            assert_eq!(seeders, 4);
            assert_eq!(peers.len(), 1);
            assert_eq!(peers[0].ip, [10, 0, 0, 1]);
            assert_eq!(peers[0].port, 6881);
        }
        other => panic!("expected acceptance, got {:?}", other),
    }
}

#[test]
fn announce_response_with_ragged_peer_list_fails() {
    let mut buf = vec![0u8; 20];
    buf[3] = 1; // action = announce
    buf.extend_from_slice(&[1, 2, 3]); // not a multiple of 6
    match parse_announce_response(&buf, 0) {
        AnnounceReply::Failed { error } => assert_eq!(error, TrackerError::PeerListMalformed),
        other => panic!("expected failure, got {:?}", other),
    }
}

#[test]
fn backoff_doubles_from_fifteen_seconds() {
    assert_eq!(retry_timeout_secs(0), 15);
    assert_eq!(retry_timeout_secs(1), 30);
    assert_eq!(retry_timeout_secs(3), 120);
    assert_eq!(retry_timeout_secs(8), 3840);
}

#[test]
fn stale_connect_response_keeps_the_session_waiting() {
    let mut session = TrackerSession::new([1u8; 20], [2u8; 20], 6881);
    let action = session.start();
    let txid = session_txid(&session);
    match action {
        TrackerAction::Send { packet, timeout_secs } => {
            assert_eq!(packet.len(), 16);
            assert_eq!(timeout_secs, 15);
        }
        other => panic!("expected a send, got {:?}", other),
    }
    // a response with someone else's transaction id is discarded
    let stale = connect_response(txid.wrapping_add(1), 99);
    let action = session.on_packet(&stale);
    assert!(matches!(action, TrackerAction::KeepWaiting));
    assert!(matches!(session.state, SessionState::Connecting { .. }));
    assert_eq!(session_txid(&session), txid);
    // the real response still advances the handshake
    let genuine = connect_response(txid, 424242);
    let action = session.on_packet(&genuine);
    assert!(matches!(action, TrackerAction::Proceed));
    assert!(matches!(session.state, SessionState::Connected { connection_id: 424242 }));
}

#[test]
fn timeouts_back_off_and_cap_at_attempt_eight() {
    let mut session = TrackerSession::new([1u8; 20], [2u8; 20], 6881);
    session.start();
    let mut expected: u64 = 15;
    for _ in 0..8 {
        expected *= 2;
        match session.on_timeout(0) {
            TrackerAction::Send { timeout_secs, .. } => assert_eq!(timeout_secs, expected),
            other => panic!("expected a retry, got {:?}", other),
        }
    }
    // attempt 8 has now also timed out: the session fails
    match session.on_timeout(0) {
        TrackerAction::Abandoned { error } => assert_eq!(error, TrackerError::ConnectTimeout),
        other => panic!("expected abandonment, got {:?}", other),
    }
    assert!(matches!(
        session.state,
        SessionState::Failed { error: TrackerError::ConnectTimeout }
    ));
}

#[test]
fn full_handshake_completes_with_peers() {
    let mut session = TrackerSession::new([1u8; 20], [2u8; 20], 6881);
    session.start();
    let txid = session_txid(&session);
    session.on_packet(&connect_response(txid, 7));
    let action = session.announce_now(0);
    let atx = session_txid(&session);
    match action {
        TrackerAction::Send { packet, timeout_secs } => {
            assert_eq!(packet.len(), 98);
            assert_eq!(&packet[0..8], &7u64.to_be_bytes());
            assert_eq!(&packet[16..36], &[1u8; 20]);
            assert_eq!(timeout_secs, 15);
        }
        other => panic!("expected a send, got {:?}", other),
    }
    let mut reply = Vec::new();
    reply.extend_from_slice(&1u32.to_be_bytes());
    reply.extend_from_slice(&atx.to_be_bytes());
    reply.extend_from_slice(&1800u32.to_be_bytes());
    reply.extend_from_slice(&0u32.to_be_bytes());
    reply.extend_from_slice(&1u32.to_be_bytes());
    reply.extend_from_slice(&[127, 0, 0, 1, 0x1A, 0xE1]);
    let action = session.on_packet(&reply);
    assert!(matches!(action, TrackerAction::Finished));
    match &session.state {
        SessionState::Completed { interval, peers, .. } => {
            assert_eq!(*interval, 1800);
            assert_eq!(peers.len(), 1);
            assert_eq!(peers[0].ip, [127, 0, 0, 1]);
            assert_eq!(peers[0].port, 6881);
        }
        other => panic!("expected completion, got {:?}", other),
    }
}

#[test]
fn stale_connection_id_reenters_the_connect_phase() {
    let mut session = TrackerSession::new([1u8; 20], [2u8; 20], 6881);
    session.start();
    let txid = session_txid(&session);
    session.on_packet(&connect_response(txid, 7));
    // the connection id is a minute old: announce must reconnect first
    let action = session.announce_now(61);
    assert!(matches!(session.state, SessionState::Connecting { attempt: 0, .. }));
    match action {
        TrackerAction::Send { packet, .. } => assert_eq!(packet.len(), 16),
        other => panic!("expected a send, got {:?}", other),
    }
}
