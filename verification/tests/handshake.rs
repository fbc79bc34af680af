use tempest::error::Error;
use tempest::peer::handshake::{
    build_handshake, check_handshake, parse_handshake, HANDSHAKE_LEN, PSTR,
};
use tempest::peer::identity::{generate_peer_id, peer_id_from, CLIENT_PREFIX};

#[test]
fn handshake_round_trip() {
    let info = [1u8; 20];
    let pid = [2u8; 20];
    let buf = build_handshake(&info, &pid);
    let (h, p) = parse_handshake(&buf).unwrap();
    assert_eq!(h, info);
    assert_eq!(p, pid);
}

fn peer_error<T>(res: Result<T, Error>) -> String {
    match res {
        Err(Error::Peer(text)) => text,
        _ => panic!("no peer error"),
    }
}

#[test]
fn handshake_has_its_layout() {
    let buf = build_handshake(&[7u8; 20], &[9u8; 20]);
    assert_eq!(HANDSHAKE_LEN, 68);
    assert_eq!(&PSTR, b"BitTorrent protocol");
    assert_eq!(buf[0], 19);
    assert_eq!(&buf[1..20], b"BitTorrent protocol");
    assert_eq!(&buf[20..28], &[0u8; 8]);
    assert_eq!(&buf[28..48], &[7u8; 20]);
    assert_eq!(&buf[48..68], &[9u8; 20]);
}

#[test]
fn other_protocols_are_refused() {
    let mut buf = build_handshake(&[1u8; 20], &[2u8; 20]);
    buf[0] = 18;
    assert_eq!(peer_error(parse_handshake(&buf)), "bad handshake pstr");
    let mut buf = build_handshake(&[1u8; 20], &[2u8; 20]);
    buf[19] = b'L';
    assert_eq!(peer_error(parse_handshake(&buf)), "bad handshake pstr");
    assert_eq!(peer_error(check_handshake(&buf, &[1u8; 20])), "bad handshake pstr");
}

#[test]
fn reserved_bytes_do_not_matter() {
    let mut buf = build_handshake(&[1u8; 20], &[2u8; 20]);
    buf[25] = 0x10;
    assert!(parse_handshake(&buf).is_ok());
}

#[test]
fn peers_must_be_there_for_the_same_torrent() {
    let theirs = build_handshake(&[3u8; 20], &[4u8; 20]);
    assert_eq!(check_handshake(&theirs, &[3u8; 20]).unwrap(), [4u8; 20]);
    assert_eq!(
        peer_error(check_handshake(&theirs, &[5u8; 20])),
        "info_hash mismatch in handshake"
    );
}

#[test]
fn peer_ids_start_with_the_client() {
    assert_eq!(&CLIENT_PREFIX, b"-TE0001-");
    let mut expected = [6u8; 20];
    expected[..8].copy_from_slice(b"-TE0001-");
    assert_eq!(peer_id_from([6u8; 12]), expected);
    let one = generate_peer_id();
    let two = generate_peer_id();
    assert_eq!(&one[..8], b"-TE0001-");
    assert_ne!(one, two);
    assert_ne!(&one[8..], &[0u8; 12]);
}
