//! The 68-byte handshake.

use vstd::prelude::*;
use vstd::string::*;

use crate::error::{Error, Result};
use crate::octets::{copy_twenty, same_bytes};

verus! {

/// The name of the protocol: "BitTorrent protocol".
pub const PSTR: [u8; 19] = [
    66,
    105,
    116,
    84,
    111,
    114,
    114,
    101,
    110,
    116,
    32,
    112,
    114,
    111,
    116,
    111,
    99,
    111,
    108,
];

pub const HANDSHAKE_LEN: usize = 68;

/// The handshake of a peer: the length of the protocol name, the name, eight reserved bytes
/// that are zero, the info hash, and the peer id.
pub open spec fn handshake(info_hash: Seq<u8>, peer_id: Seq<u8>) -> Seq<u8> {
    seq![19u8] + PSTR@ + Seq::new(8, |i: int| 0u8) + info_hash + peer_id
}

pub fn build_handshake(info_hash: &[u8; 20], peer_id: &[u8; 20]) -> (buf: [u8; HANDSHAKE_LEN])
    ensures
        buf@ == handshake(info_hash@, peer_id@),
{
    let pstr: [u8; 19] = PSTR;
    let mut buf: [u8; HANDSHAKE_LEN] = [0u8; HANDSHAKE_LEN];
    let mut i: usize = 0;
    while i < HANDSHAKE_LEN
        invariant
            i <= HANDSHAKE_LEN,
            pstr == PSTR,
            forall|k: int| 0 <= k < i ==> buf@[k] == handshake(info_hash@, peer_id@)[k],
        decreases HANDSHAKE_LEN - i,
    {
        buf[i] = if i == 0 {
            19
        } else if i < 20 {
            pstr[i - 1]
        } else if i < 28 {
            0
        } else if i < 48 {
            info_hash[i - 28]
        } else {
            peer_id[i - 48]
        };
        i += 1;
    }
    assert(buf@ =~= handshake(info_hash@, peer_id@));
    buf
}

/// Whether a frame starts like a handshake.
pub open spec fn greets(buf: Seq<u8>) -> bool {
    buf[0] == 19 && buf.subrange(1, 20) == PSTR@
}

/// The info hash and the peer id of a handshake.
pub fn parse_handshake(buf: &[u8; HANDSHAKE_LEN]) -> (res: Result<([u8; 20], [u8; 20])>)
    ensures
        match res {
            Ok((info_hash, peer_id)) => greets(buf@) && info_hash@ == buf@.subrange(28, 48)
                && peer_id@ == buf@.subrange(48, 68),
            Err(e) => !greets(buf@) && e.is_peer("bad handshake pstr"@),
        },
{
    let pstr: [u8; 19] = PSTR;
    let bytes: &[u8] = buf.as_slice();
    let name: &[u8] = vstd::slice::slice_subrange(bytes, 1, 20);
    if buf[0] != 19 || !same_bytes(name, pstr.as_slice()) {
        return Err(Error::Peer("bad handshake pstr".to_owned()));
    }
    Ok((copy_twenty(bytes, 28), copy_twenty(bytes, 48)))
}

/// The peer id of an answer to a handshake. The answer must be for the same torrent.
pub fn check_handshake(theirs: &[u8; HANDSHAKE_LEN], info_hash: &[u8; 20]) -> (res: Result<[u8; 20]>)
    ensures
        match res {
            Ok(peer_id) => greets(theirs@) && theirs@.subrange(28, 48) == info_hash@ && peer_id@
                == theirs@.subrange(48, 68),
            Err(e) => if !greets(theirs@) {
                e.is_peer("bad handshake pstr"@)
            } else {
                theirs@.subrange(28, 48) != info_hash@ && e.is_peer(
                    "info_hash mismatch in handshake"@,
                )
            },
        },
{
    match parse_handshake(theirs) {
        Err(e) => Err(e),
        Ok((their_hash, their_id)) => {
            if !same_bytes(their_hash.as_slice(), info_hash.as_slice()) {
                return Err(Error::Peer("info_hash mismatch in handshake".to_owned()));
            }
            Ok(their_id)
        },
    }
}

/// A handshake gives back the info hash and the peer id that it was built from.
pub proof fn handshake_round_trips(info_hash: Seq<u8>, peer_id: Seq<u8>)
    requires
        info_hash.len() == 20,
        peer_id.len() == 20,
    ensures
        handshake(info_hash, peer_id).len() == HANDSHAKE_LEN,
        greets(handshake(info_hash, peer_id)),
        handshake(info_hash, peer_id).subrange(28, 48) == info_hash,
        handshake(info_hash, peer_id).subrange(48, 68) == peer_id,
{
    let h = handshake(info_hash, peer_id);
    assert(h.subrange(1, 20) =~= PSTR@);
    assert(h.subrange(28, 48) =~= info_hash);
    assert(h.subrange(48, 68) =~= peer_id);
}

/// Two peers that join for the same torrent accept each other, and for different torrents
/// they do not.
pub proof fn handshake_matches_torrent(ours: Seq<u8>, theirs: Seq<u8>, peer_id: Seq<u8>)
    requires
        ours.len() == 20,
        theirs.len() == 20,
        peer_id.len() == 20,
    ensures
        handshake(theirs, peer_id).subrange(28, 48) == ours <==> ours == theirs,
{
    handshake_round_trips(theirs, peer_id);
}

} // verus!
