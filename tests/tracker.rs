use bittorrent::tracker::{InfoHash, PeerAddr, Peers, Tracker, TrackerError, TrackerResponse};

#[test]
fn compact_peer_boundaries() {
    assert_eq!(Peers::from_compact(&[127, 0, 0, 1, 0x1A]).err(), Some(TrackerError::InvalidPeerTable));
    let p = Peers::from_compact(&[127, 0, 0, 1, 0x1A, 0xE1]).unwrap();
    assert_eq!(p.0, vec![PeerAddr { ip: [127, 0, 0, 1], port: 6881 }]);
    assert!(Peers::from_compact(&[]).unwrap().0.is_empty());
    let two = Peers::from_compact(&[10, 0, 0, 2, 0, 80, 192, 168, 1, 9, 0xff, 0xff]).unwrap();
    assert_eq!(
        two.0,
        vec![
            PeerAddr { ip: [10, 0, 0, 2], port: 80 },
            PeerAddr { ip: [192, 168, 1, 9], port: 65535 }
        ]
    );
}

#[test]
fn parses_a_compact_tracker_reply() {
    let mut body = b"d8:intervali1800e5:peers12:".to_vec();
    body.extend_from_slice(&[127, 0, 0, 1, 0x1A, 0xE1, 1, 2, 3, 4, 0, 1]);
    body.push(b'e');
    let r = TrackerResponse::parse(&body).unwrap();
    assert_eq!(
        r.peers.0,
        vec![PeerAddr { ip: [127, 0, 0, 1], port: 6881 }, PeerAddr { ip: [1, 2, 3, 4], port: 1 }]
    );
}

#[test]
fn tracker_reply_errors() {
    assert_eq!(TrackerResponse::parse(b"").err(), Some(TrackerError::TrackerProtocolError));
    assert_eq!(TrackerResponse::parse(b"garbage").err(), Some(TrackerError::TrackerProtocolError));
    assert_eq!(TrackerResponse::parse(b"de").err(), Some(TrackerError::TrackerProtocolError));
    assert_eq!(TrackerResponse::parse(b"d5:peers5:abcdee").err(), Some(TrackerError::InvalidPeerTable));
    assert_eq!(
        TrackerResponse::parse(b"d5:peersld2:ip9:127.0.0.14:porti6881eeee").err(),
        Some(TrackerError::UnsupportedTrackerMode)
    );
}

#[test]
fn announce_query_percent_encodes_raw_bytes() {
    let mut hash = [0u8; 20];
    hash[0] = 0xff;
    hash[1] = 0x80;
    hash[2] = b'a';
    let t = Tracker {
        info_hash: InfoHash::from(hash),
        peer_id: String::from("00112233445566778899"),
        port: 6881,
        uploaded: 0,
        downloaded: 0,
        left: 92063,
        compact: 1,
    };
    let q = String::from_utf8(t.query()).unwrap();
    let mut expected = String::from("info_hash=%FF%80%61");
    for _ in 3..20 {
        expected.push_str("%00");
    }
    expected.push_str("&peer_id=");
    for c in "00112233445566778899".bytes() {
        expected.push_str(&format!("%{:02X}", c));
    }
    expected.push_str("&port=6881&uploaded=0&downloaded=0&left=92063&compact=1");
    assert_eq!(q, expected);
}

#[test]
fn info_hash_accessors() {
    let h = InfoHash::from([7u8; 20]);
    assert_eq!(h.len(), 20);
    assert_eq!(h.as_bytes(), &[7u8; 20][..]);
}
