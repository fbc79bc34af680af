use bytes::BytesMut;
use tempest::error::Error;
use tempest::peer::connection::{command_message, handle_message};
use tempest::peer::message::{Message, MessageCodec};
use tempest::peer::{CmdMsg, PeerMsg};

fn all_messages() -> Vec<Message> {
    vec![
        Message::KeepAlive,
        Message::Choke,
        Message::Unchoke,
        Message::Interested,
        Message::NotInterested,
        Message::Have(42),
        Message::Bitfield(vec![0b1010_0000, 0x00]),
        Message::Request {
            index: 1,
            begin: 0,
            length: 16384,
        },
        Message::Piece {
            index: 1,
            begin: 0,
            block: vec![1, 2, 3, 4],
        },
        Message::Cancel {
            index: 1,
            begin: 0,
            length: 16384,
        },
        Message::Port(6881),
    ]
}

#[test]
fn round_trip_messages() {
    let msgs = all_messages();
    for m in msgs {
        let enc = m.encode();
        // Strip length prefix for decode helper, or use codec.
        let len = u32::from_be_bytes(enc[0..4].try_into().unwrap()) as usize;
        let decoded = Message::decode(&enc[4..4 + len]).unwrap();
        assert_eq!(decoded, m);
    }
}

fn peer_error(payload: &[u8]) -> String {
    match Message::decode(payload) {
        Err(Error::Peer(text)) => text,
        other => panic!("{:?}", other),
    }
}

#[test]
fn messages_have_their_bytes() {
    assert_eq!(Message::KeepAlive.encode(), vec![0, 0, 0, 0]);
    assert_eq!(Message::NotInterested.encode(), vec![0, 0, 0, 1, 3]);
    assert_eq!(Message::Have(0x01020304).encode(), vec![0, 0, 0, 5, 4, 1, 2, 3, 4]);
    assert_eq!(Message::Bitfield(vec![0xf0]).encode(), vec![0, 0, 0, 2, 5, 0xf0]);
    assert_eq!(
        Message::Request { index: 1, begin: 2, length: 256 }.encode(),
        vec![0, 0, 0, 13, 6, 0, 0, 0, 1, 0, 0, 0, 2, 0, 0, 1, 0]
    );
    assert_eq!(
        Message::Piece { index: 0, begin: 3, block: vec![8, 9] }.encode(),
        vec![0, 0, 0, 11, 7, 0, 0, 0, 0, 0, 0, 0, 3, 8, 9]
    );
    assert_eq!(
        Message::Cancel { index: 1, begin: 2, length: 3 }.encode(),
        vec![0, 0, 0, 13, 8, 0, 0, 0, 1, 0, 0, 0, 2, 0, 0, 0, 3]
    );
    assert_eq!(Message::Port(6881).encode(), vec![0, 0, 0, 3, 9, 0x1a, 0xe1]);
    for m in all_messages() {
        assert!(m.can_encode());
    }
}

#[test]
fn short_payloads_are_refused() {
    assert_eq!(peer_error(&[4, 0, 0, 0]), "short have");
    assert_eq!(peer_error(&[6, 0, 0, 0, 0, 0, 0, 0, 0, 0, 0, 0]), "short request/cancel");
    assert_eq!(peer_error(&[8]), "short request/cancel");
    assert_eq!(peer_error(&[7, 0, 0, 0, 0, 0, 0, 0]), "short piece");
    assert_eq!(peer_error(&[9, 1]), "short port");
    assert_eq!(peer_error(&[20, 1]), "unknown message id 20");
    assert_eq!(peer_error(&[255]), "unknown message id 255");
}

#[test]
fn longer_payloads_are_taken() {
    assert_eq!(Message::decode(&[0, 99]).unwrap(), Message::Choke);
    assert_eq!(Message::decode(&[4, 0, 0, 0, 7, 1, 1]).unwrap(), Message::Have(7));
    assert_eq!(Message::decode(&[]).unwrap(), Message::KeepAlive);
    assert_eq!(Message::decode(&[5]).unwrap(), Message::Bitfield(vec![]));
}

#[test]
fn a_stream_of_frames_comes_apart_again() {
    let mut codec = MessageCodec;
    let mut buf = BytesMut::new();
    for m in all_messages() {
        codec.encode(m, &mut buf).unwrap();
    }
    for m in all_messages() {
        assert_eq!(codec.decode(&mut buf).unwrap(), Some(m));
    }
    assert_eq!(codec.decode(&mut buf).unwrap(), None);
    assert!(buf.is_empty());
}

#[test]
fn a_frame_that_is_not_whole_waits() {
    let mut codec = MessageCodec;
    let whole = Message::Have(5).encode();
    for n in 0..whole.len() {
        let mut buf = BytesMut::from(&whole[..n]);
        assert_eq!(codec.decode(&mut buf).unwrap(), None);
        assert_eq!(&buf[..], &whole[..n]);
    }
    let mut buf = BytesMut::from(&whole[..]);
    buf.extend_from_slice(&[0, 0]);
    assert_eq!(codec.decode(&mut buf).unwrap(), Some(Message::Have(5)));
    assert_eq!(&buf[..], &[0, 0]);
}

#[test]
fn a_bad_frame_is_taken_off_the_stream() {
    let mut codec = MessageCodec;
    let mut buf = BytesMut::from(&[0u8, 0, 0, 1, 77, 0, 0, 0, 0][..]);
    assert!(codec.decode(&mut buf).is_err());
    assert_eq!(codec.decode(&mut buf).unwrap(), Some(Message::KeepAlive));
}

#[test]
fn commands_become_messages() {
    let cases = vec![
        (CmdMsg::Choke, Message::Choke),
        (CmdMsg::Unchoke, Message::Unchoke),
        (CmdMsg::Interested, Message::Interested),
        (CmdMsg::NotInterested, Message::NotInterested),
        (
            CmdMsg::RequestBlock { index: 1, begin: 2, length: 3 },
            Message::Request { index: 1, begin: 2, length: 3 },
        ),
        (
            CmdMsg::CancelBlock { index: 1, begin: 2, length: 3 },
            Message::Cancel { index: 1, begin: 2, length: 3 },
        ),
        (CmdMsg::Have(4), Message::Have(4)),
        (CmdMsg::SendBitfield(vec![5]), Message::Bitfield(vec![5])),
        (
            CmdMsg::SendPiece { index: 1, begin: 2, block: vec![3] },
            Message::Piece { index: 1, begin: 2, block: vec![3] },
        ),
    ];
    for (cmd, msg) in cases {
        assert_eq!(command_message(cmd), Some(msg));
    }
    assert_eq!(command_message(CmdMsg::Shutdown), None);
}

#[test]
fn messages_become_news() {
    assert!(handle_message(3, 8, Message::KeepAlive).is_none());
    assert!(handle_message(3, 8, Message::Port(1)).is_none());
    assert!(handle_message(3, 8, Message::Cancel { index: 0, begin: 0, length: 0 }).is_none());
    assert!(matches!(handle_message(3, 8, Message::Choke), Some(PeerMsg::Choked { id: 3 })));
    assert!(matches!(handle_message(3, 8, Message::Unchoke), Some(PeerMsg::Unchoked { id: 3 })));
    assert!(matches!(
        handle_message(3, 8, Message::Interested),
        Some(PeerMsg::Interested { id: 3 })
    ));
    assert!(matches!(
        handle_message(3, 8, Message::NotInterested),
        Some(PeerMsg::NotInterested { id: 3 })
    ));
    assert!(matches!(
        handle_message(3, 8, Message::Have(6)),
        Some(PeerMsg::Have { id: 3, index: 6 })
    ));
    assert!(matches!(
        handle_message(3, 8, Message::Request { index: 1, begin: 2, length: 4 }),
        Some(PeerMsg::RequestFromPeer { id: 3, index: 1, begin: 2, length: 4 })
    ));
    match handle_message(3, 8, Message::Piece { index: 1, begin: 2, block: vec![9] }) {
        Some(PeerMsg::BlockReceived { id, index, begin, data }) => {
            assert_eq!((id, index, begin, data), (3, 1, 2, vec![9]));
        }
        _ => panic!("no block"),
    }
    match handle_message(3, 3, Message::Bitfield(vec![0xff])) {
        Some(PeerMsg::Bitfield { id, bits }) => {
            assert_eq!(id, 3);
            assert_eq!(bits.num_pieces(), 3);
            assert_eq!(bits.count(), 3);
            assert_eq!(bits.as_bytes(), &[0b1110_0000]);
        }
        _ => panic!("no bitfield"),
    }
}
