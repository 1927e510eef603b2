use bittorrent::handshake::{check_reply, Handshake, HandshakeError};
use bittorrent::tracker::InfoHash;

fn sample() -> Handshake {
    let mut hash = [0u8; 20];
    for (i, b) in hash.iter_mut().enumerate() {
        *b = (i * 13) as u8 ^ 0xa5;
    }
    Handshake {
        name: String::from("BitTorrent protocol"),
        info_hash: InfoHash(hash),
        peer_id: *b"00112233445566778899",
    }
}

#[test]
fn handshake_round_trip() {
    let h = sample();
    let bytes = h.to_bytes();
    assert_eq!(bytes.len(), 68);
    assert_eq!(bytes[0], 19);
    assert_eq!(&bytes[1..20], b"BitTorrent protocol");
    assert_eq!(&bytes[20..28], &[0u8; 8]);
    assert_eq!(&bytes[28..48], &h.info_hash.0[..]);
    assert_eq!(&bytes[48..68], &h.peer_id[..]);
    let back = Handshake::from_bytes(&bytes).unwrap();
    assert_eq!(back.name, h.name);
    assert_eq!(back.info_hash.0, h.info_hash.0);
    assert_eq!(back.peer_id, h.peer_id);
}

#[test]
fn handshake_errors() {
    assert_eq!(Handshake::from_bytes(&[]).err(), Some(HandshakeError::MalformedHandshake));
    let mut bytes = sample().to_bytes();
    bytes.pop();
    assert_eq!(Handshake::from_bytes(&bytes).err(), Some(HandshakeError::MalformedHandshake));
    let mut bad = vec![2u8, 0xff, 0xfe];
    bad.extend_from_slice(&[0u8; 48]);
    assert_eq!(Handshake::from_bytes(&bad).err(), Some(HandshakeError::InvalidProtocolName));
}

#[test]
fn reply_must_name_the_same_torrent() {
    let h = sample();
    let bytes = h.to_bytes();
    let ok = check_reply(&InfoHash(h.info_hash.0), &bytes).unwrap();
    assert_eq!(ok.peer_id, h.peer_id);
    let other = InfoHash([1u8; 20]);
    assert_eq!(check_reply(&other, &bytes).err(), Some(HandshakeError::PeerInfoHashMismatch));
}

#[test]
fn peer_id_as_hex() {
    let mut h = sample();
    h.peer_id = [0u8; 20];
    h.peer_id[0] = 0xab;
    h.peer_id[19] = 0x0f;
    let s = h.peer_id_string();
    assert_eq!(s, format!("ab{}0f", "00".repeat(18)));
}
