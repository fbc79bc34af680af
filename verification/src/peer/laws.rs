//! The bytes of the peer protocol: which byte stands for what, and where.

use vstd::prelude::*;

use crate::octets::{be, be_len, four, places, two, written_places};
use crate::peer::handshake::{greets, handshake, PSTR};
use crate::peer::identity::CLIENT_PREFIX;
use crate::peer::message::{take_frame, wire_of, Message, Taken, Wire};
use crate::text::decimal;

verus! {

/// Every message is sent as the bytes that the protocol gives it: four bytes with the length of
/// what follows, the id of its kind, and what it carries, numbers with their most significant
/// byte first. A keep-alive has neither id nor contents.
pub proof fn messages_are_sent_as_their_bytes(m: Message)
    ensures
        ({
            let f = m@.frame();
            match m {
                Message::KeepAlive => f == seq![0u8, 0, 0, 0],
                Message::Choke => f == seq![0u8, 0, 0, 1, 0],
                Message::Unchoke => f == seq![0u8, 0, 0, 1, 1],
                Message::Interested => f == seq![0u8, 0, 0, 1, 2],
                Message::NotInterested => f == seq![0u8, 0, 0, 1, 3],
                Message::Have(index) => f.len() == 9 && f.take(5) == seq![0u8, 0, 0, 5, 4] && four(
                    f,
                    5,
                ) == index,
                Message::Bitfield(bits) => f.len() == 5 + bits@.len() && f[4] == 5 && f.skip(5)
                    == bits@ && (bits@.len() < u32::MAX ==> four(f, 0) == 1 + bits@.len()),
                Message::Request { index, begin, length } => f.len() == 17 && f.take(5) == seq![
                    0u8,
                    0,
                    0,
                    13,
                    6,
                ] && four(f, 5) == index && four(f, 9) == begin && four(f, 13) == length,
                Message::Piece { index, begin, block } => f.len() == 13 + block@.len() && f[4] == 7
                    && four(f, 5) == index && four(f, 9) == begin && f.skip(13) == block@ && (
                block@.len() < u32::MAX - 8 ==> four(f, 0) == 9 + block@.len()),
                Message::Cancel { index, begin, length } => f.len() == 17 && f.take(5) == seq![
                    0u8,
                    0,
                    0,
                    13,
                    8,
                ] && four(f, 5) == index && four(f, 9) == begin && four(f, 13) == length,
                Message::Port(port) => f.len() == 7 && f.take(5) == seq![0u8, 0, 0, 3, 9] && two(f, 5)
                    == port,
            }
        }),
{
    broadcast use be_len;

    let f = m@.frame();
    let n = m@.declared();
    assert(f.subrange(0, 4) =~= be(n, 4));
    if n <= u32::MAX {
        written_places(f, 0, n);
        prefix_bytes(f, n);
    }
    match m {
        Message::Have(index) => {
            assert(f.subrange(5, 9) =~= be(index as int, 4));
            written_places(f, 5, index as int);
            assert(f.take(5) =~= seq![0u8, 0, 0, 5, 4]);
        },
        Message::Bitfield(bits) => {
            assert(f.skip(5) =~= bits@);
        },
        Message::Request { index, begin, length } => {
            assert(f.subrange(5, 9) =~= be(index as int, 4));
            assert(f.subrange(9, 13) =~= be(begin as int, 4));
            assert(f.subrange(13, 17) =~= be(length as int, 4));
            written_places(f, 5, index as int);
            written_places(f, 9, begin as int);
            written_places(f, 13, length as int);
            assert(f.take(5) =~= seq![0u8, 0, 0, 13, 6]);
        },
        Message::Piece { index, begin, block } => {
            assert(f.subrange(5, 9) =~= be(index as int, 4));
            assert(f.subrange(9, 13) =~= be(begin as int, 4));
            written_places(f, 5, index as int);
            written_places(f, 9, begin as int);
            assert(f.skip(13) =~= block@);
        },
        Message::Cancel { index, begin, length } => {
            assert(f.subrange(5, 9) =~= be(index as int, 4));
            assert(f.subrange(9, 13) =~= be(begin as int, 4));
            assert(f.subrange(13, 17) =~= be(length as int, 4));
            written_places(f, 5, index as int);
            written_places(f, 9, begin as int);
            written_places(f, 13, length as int);
            assert(f.take(5) =~= seq![0u8, 0, 0, 13, 8]);
        },
        Message::Port(port) => {
            assert(f.subrange(5, 7) =~= be(port as int, 2));
            written_places(f, 5, port as int);
            assert(f.take(5) =~= seq![0u8, 0, 0, 3, 9]);
        },
        Message::KeepAlive => {
            assert(f =~= seq![0u8, 0, 0, 0]);
        },
        Message::Choke => {
            assert(f =~= seq![0u8, 0, 0, 1, 0]);
        },
        Message::Unchoke => {
            assert(f =~= seq![0u8, 0, 0, 1, 1]);
        },
        Message::Interested => {
            assert(f =~= seq![0u8, 0, 0, 1, 2]);
        },
        Message::NotInterested => {
            assert(f =~= seq![0u8, 0, 0, 1, 3]);
        },
    }
}

/// The bytes of a small length.
proof fn prefix_bytes(f: Seq<u8>, n: int)
    requires
        f.len() >= 4,
        four(f, 0) == n,
    ensures
        0 <= n < 256 ==> f[0] == 0 && f[1] == 0 && f[2] == 0 && f[3] == n,
{
}

/// A payload is read as the bytes of the protocol say: the first byte is the id of the kind, and
/// what it carries stands behind it at its place. What is too short for its kind is refused, and
/// so is an id that no kind has.
pub proof fn payloads_are_read_by_their_bytes(p: Seq<u8>, m: Message)
    requires
        wire_of(p) == Ok::<Wire, Seq<char>>(m@),
    ensures
        match m {
            Message::KeepAlive => p.len() == 0,
            Message::Choke => p.len() > 0 && p[0] == 0,
            Message::Unchoke => p.len() > 0 && p[0] == 1,
            Message::Interested => p.len() > 0 && p[0] == 2,
            Message::NotInterested => p.len() > 0 && p[0] == 3,
            Message::Have(index) => p.len() >= 5 && p[0] == 4 && index == four(p, 1),
            Message::Bitfield(bits) => p.len() > 0 && p[0] == 5 && bits@ == p.skip(1),
            Message::Request { index, begin, length } => p.len() >= 13 && p[0] == 6 && index == four(
                p,
                1,
            ) && begin == four(p, 5) && length == four(p, 9),
            Message::Piece { index, begin, block } => p.len() >= 9 && p[0] == 7 && index == four(
                p,
                1,
            ) && begin == four(p, 5) && block@ == p.skip(9),
            Message::Cancel { index, begin, length } => p.len() >= 13 && p[0] == 8 && index == four(
                p,
                1,
            ) && begin == four(p, 5) && length == four(p, 9),
            Message::Port(port) => p.len() >= 3 && p[0] == 9 && port == two(p, 1),
        },
{
    if p.len() > 0 {
        places(p, 1);
        places(p, 5);
        places(p, 9);
    }
}

/// Every payload of a known kind that is long enough is read, and only such a payload.
pub proof fn payloads_of_known_kinds_are_read(p: Seq<u8>)
    ensures
        wire_of(p) is Ok <==> p.len() == 0 || {
            &&& p[0] <= 9
            &&& p[0] == 4 ==> p.len() >= 5
            &&& p[0] == 6 || p[0] == 8 ==> p.len() >= 13
            &&& p[0] == 7 ==> p.len() >= 9
            &&& p[0] == 9 ==> p.len() >= 3
        },
        wire_of(p) matches Err(text) ==> text == if p[0] == 4 {
            "short have"@
        } else if p[0] == 6 || p[0] == 8 {
            "short request/cancel"@
        } else if p[0] == 7 {
            "short piece"@
        } else if p[0] == 9 {
            "short port"@
        } else {
            "unknown message id "@ + decimal(p[0] as nat)
        },
{
}

/// A frame is taken off a stream once four bytes and as many more as they count are there. It
/// leaves what follows it.
pub proof fn frames_are_cut_by_their_lengths(src: Seq<u8>)
    ensures
        match take_frame(src) {
            Taken::Partial => src.len() < 4 || src.len() < 4 + four(src, 0),
            Taken::Frame(payload, rest) => {
                &&& src.len() >= 4
                &&& payload.len() == four(src, 0)
                &&& src == src.take(4) + payload + rest
            },
        },
{
    if src.len() >= 4 {
        places(src, 0);
        assert(src.subrange(0, 4) =~= src.take(4));
        if let Taken::Frame(payload, rest) = take_frame(src) {
            assert(src =~= src.take(4) + payload + rest);
        }
    }
}

/// The handshake is the byte 19, the ASCII of "BitTorrent protocol", eight zero bytes, the info
/// hash and the peer id.
pub proof fn handshakes_are_their_bytes(info_hash: Seq<u8>, peer_id: Seq<u8>)
    requires
        info_hash.len() == 20,
        peer_id.len() == 20,
    ensures
        ({
            let h = handshake(info_hash, peer_id);
            &&& h.len() == 68
            &&& h[0] == 19
            &&& named_bittorrent(h)
            &&& forall|k: int| 20 <= k < 28 ==> h[k] == 0
            &&& forall|k: int| 0 <= k < 20 ==> h[28 + k] == #[trigger] info_hash[k]
            &&& forall|k: int| 0 <= k < 20 ==> h[48 + k] == #[trigger] peer_id[k]
        }),
{
    let h = handshake(info_hash, peer_id);
    assert forall|k: int| 0 <= k < 20 implies h[28 + k] == #[trigger] info_hash[k] by {}
    assert forall|k: int| 0 <= k < 20 implies h[48 + k] == #[trigger] peer_id[k] by {}
}

/// Whether the name of the protocol stands behind the first byte, letter by letter.
pub open spec fn named_bittorrent(h: Seq<u8>) -> bool {
    &&& h[1] == 66
    &&& h[2] == 105
    &&& h[3] == 116
    &&& h[4] == 84
    &&& h[5] == 111
    &&& h[6] == 114
    &&& h[7] == 114
    &&& h[8] == 101
    &&& h[9] == 110
    &&& h[10] == 116
    &&& h[11] == 32
    &&& h[12] == 112
    &&& h[13] == 114
    &&& h[14] == 111
    &&& h[15] == 116
    &&& h[16] == 111
    &&& h[17] == 99
    &&& h[18] == 111
    &&& h[19] == 108
}

/// The id of this client starts with the ASCII of "-TE0001-".
pub proof fn clients_are_named(id: Seq<u8>)
    requires
        id.len() == 20,
        id.take(8) == CLIENT_PREFIX@,
    ensures
        id[0] == 45 && id[1] == 84 && id[2] == 69 && id[3] == 48,
        id[4] == 48 && id[5] == 48 && id[6] == 49 && id[7] == 45,
{
    assert forall|k: int| 0 <= k < 8 implies id[k] == CLIENT_PREFIX@[k] by {
        assert(id.take(8)[k] == id[k]);
    }
    assert(id[0] == CLIENT_PREFIX@[0]);
}

/// A handshake is accepted exactly if it starts with the byte 19 and the name of the protocol,
/// whatever its reserved bytes are.
pub proof fn greetings_name_the_protocol(h: Seq<u8>)
    requires
        h.len() == 68,
    ensures
        greets(h) <==> h[0] == 19 && named_bittorrent(h),
{
    let name = h.subrange(1, 20);
    assert forall|k: int| 0 <= k < 19 implies name[k] == h[k + 1] by {}
    if h[0] == 19 && named_bittorrent(h) {
        assert(name =~= PSTR@);
    }
    if greets(h) {
        assert forall|k: int| 0 <= k < 19 implies h[k + 1] == PSTR@[k] by {
            assert(name[k] == PSTR@[k]);
        }
        assert(h[1] == PSTR@[0]);
        assert(named_bittorrent(h));
    }
}

} // verus!
