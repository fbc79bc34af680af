//! How pieces and blocks are measured, counted and marked, in plain numbers.

use vstd::prelude::*;

use crate::digest::sha1_digest;
use crate::piece::{bit, holds, tally, Bitfield, PieceManager, PieceState};
use crate::pieces::{fewer, haves, more, Fate, Pieces};

verus! {

/// Piece `i` starts at `i` times the length of a piece, and has that length unless the torrent
/// ends before that.
pub proof fn pieces_are_equally_long(p: Pieces, i: int)
    ensures
        p.start(i) == i * p.piece_length,
        i * p.piece_length + p.piece_length <= p.total_length ==> p.size(i) == p.piece_length,
        i * p.piece_length + p.piece_length > p.total_length ==> p.size(i) == p.total_length - i
            * p.piece_length,
        0 <= p.size(i) <= u32::MAX ==> p.len(i) == p.size(i),
{
}

/// A piece has as many blocks as cover it, all of the same length but the last, and each starts
/// where the one before ends.
pub proof fn blocks_are_equally_long(p: Pieces, i: u32, b: int)
    ensures
        p.len(i as int) == 0 <==> p.blocks(i as int) == 0,
        p.len(i as int) > 0 ==> (p.blocks(i as int) - 1) * 16384 < p.len(i as int) <= p.blocks(
            i as int,
        ) * 16384,
        0 <= b < p.blocks(i as int) ==> {
            &&& p.block(i, b).index == i
            &&& p.block(i, b).begin == b * 16384
            &&& p.block(i, b).length == if (b + 1) * 16384 <= p.len(i as int) {
                16384int
            } else {
                p.len(i as int) - b * 16384
            }
        },
{
}

/// A block is bad exactly if it does not end inside its piece or starts behind its last block. It
/// is a repetition exactly if the block that it starts in came before.
pub proof fn blocks_lie_in_their_pieces(p: Pieces, i: u32, begin: u32, data: Seq<u8>)
    ensures
        p.fate(i, begin, data) is Bad <==> begin + data.len() > p.len(i as int) || begin
            >= p.blocks(i as int) * 16384,
        p.fate(i, begin, data) is Duplicate <==> begin + data.len() <= p.len(i as int) && begin
            < p.blocks(i as int) * 16384 && p.assembly(i).received[begin as int / 16384],
{
}

/// A block that is taken in is marked as received and its bytes stand in the piece where they
/// belong, while all other bytes and marks stay. The piece is complete when no block is left.
pub proof fn blocks_are_put_in_place(p: Pieces, i: u32, begin: u32, data: Seq<u8>, k: int)
    requires
        p.valid(),
        0 <= k < p.len(i as int),
    ensures
        ({
            let a = p.assembly(i);
            let byte = if begin <= k < begin + data.len() {
                data[k - begin]
            } else {
                a.buf[k]
            };
            match p.fate(i, begin, data) {
                Fate::Assembling(b) => {
                    &&& b.buf[k] == byte
                    &&& b.received[begin as int / 16384]
                    &&& b.left == a.left - 1
                    &&& b.left > 0
                },
                Fate::Complete(buf) => buf[k] == byte && a.left <= 1,
                _ => true,
            }
        }),
{
    let a = p.assembly(i);
    if p.partial.contains_key(i) {
        assert(p.fits(i, p.partial[i]));
    }
    assert(a.buf.len() == p.len(i as int));
}

/// What was downloaded is the pieces that are there, each with its length.
pub proof fn downloads_add_up(p: Pieces, k: int)
    requires
        0 <= k <= u32::MAX,
    ensures
        p.downloaded(0) == 0,
        p.downloaded(k + 1) == p.downloaded(k) + if p.state[k] is Have {
            p.len(k) as int
        } else {
            0
        },
{
}

/// Each piece that is there is counted once.
pub proof fn pieces_count_once(state: Seq<PieceState>, last: PieceState)
    ensures
        haves(Seq::empty()) == 0,
        haves(state.push(last)) == haves(state) + if last is Have {
            1int
        } else {
            0
        },
{
    assert(state.push(last).drop_last() =~= state);
}

/// Each flag that is set is counted once.
pub proof fn flags_count_once(flags: Seq<bool>, last: bool)
    ensures
        tally(Seq::empty()) == 0,
        tally(flags.push(last)) == tally(flags) + if last {
            1int
        } else {
            0
        },
{
    assert(flags.push(last).drop_last() =~= flags);
}

/// A piece that is abandoned is missing if it was in flight, one that is reclaimed is in flight
/// if it was missing, and neither changes otherwise. No other piece changes.
pub proof fn pieces_are_given_back_and_taken_up(p: Pieces, i: int, k: int)
    requires
        0 <= k < p.state.len(),
    ensures
        p.abandoned(i).state[k] == if k == i && p.state[k] is InFlight {
            PieceState::Missing
        } else {
            p.state[k]
        },
        p.reclaimed(i).state[k] == if k == i && p.state[k] is Missing {
            PieceState::InFlight
        } else {
            p.state[k]
        },
        p.abandoned(i).partial == p.partial,
        p.reclaimed(i).partial == p.partial,
        p.abandoned(i).completed == p.completed,
        p.reclaimed(i).completed == p.completed,
{
}

/// While fewer than four pieces are there, any missing piece that the peer has may be picked.
/// From then on only those are that the fewest peers have.
pub proof fn first_picks_are_any(p: Pieces, peer: Seq<bool>, i: u32)
    requires
        p.aligned(),
    ensures
        p.completed < 4 ==> p.choices(peer) == p.candidates(peer),
        p.completed >= 4 && p.candidates(peer).contains(i) && (forall|j: u32|
            p.candidates(peer).contains(j) ==> p.availability[i as int]
                <= #[trigger] p.availability[j as int]) ==> p.choices(peer).contains(i),
        p.completed >= 4 && p.choices(peer).contains(i) ==> forall|j: u32|
            p.candidates(peer).contains(j) ==> p.availability[i as int]
                <= #[trigger] p.availability[j as int],
{
    let all = p.candidates(peer);
    let pred = |x: u32| p.rarest(all, x);
    broadcast use vstd::seq_lib::group_filter_ensures;

    if p.completed >= 4 {
        if all.contains(i) && p.rarest(all, i) {
            let k = choose|k: int| 0 <= k < all.len() && all[k] == i;
            assert(pred(all[k]));
            all.lemma_filter_contains(pred, k);
        }
        if p.choices(peer).contains(i) {
            let k = choose|k: int| 0 <= k < p.choices(peer).len() && p.choices(peer)[k] == i;
            assert(pred(all.filter(pred)[k]));
        }
    }
}

/// A peer more or less counts by one, but the count goes neither below zero nor beyond what it
/// can hold.
pub proof fn peers_count_by_one(n: u16)
    ensures
        n < u16::MAX ==> more(n) == n + 1,
        more(u16::MAX) == u16::MAX,
        n > 0 ==> fewer(n) == n - 1,
        fewer(0) == 0,
{
}

/// When a peer with some pieces comes or goes, exactly these pieces are counted up or down.
pub proof fn peers_count_for_their_pieces(p: Pieces, peer: Seq<bool>, i: int)
    requires
        0 <= i < p.availability.len(),
    ensures
        p.joined(peer).len() == p.availability.len(),
        p.departed(peer).len() == p.availability.len(),
        p.joined(peer)[i] == if i < peer.len() && peer[i] {
            more(p.availability[i])
        } else {
            p.availability[i]
        },
        p.departed(peer)[i] == if i < peer.len() && peer[i] {
            fewer(p.availability[i])
        } else {
            p.availability[i]
        },
{
}

/// A block that completes its piece decides it: with the right digest the piece is there, is
/// marked and counts, and with another it is missing, is not marked and does not count. Nothing
/// is put together of it any more. A block that does not complete its piece decides nothing. No
/// other piece changes.
pub proof fn digests_decide(p: Pieces, i: u32, begin: u32, data: Seq<u8>, k: u32)
    requires
        p.valid(),
        i < p.hashes.len(),
        k < p.hashes.len(),
    ensures
        ({
            let q = p.after_block(i, begin, data);
            &&& k != i ==> q.state[k as int] == p.state[k as int] && q.have[k as int]
                == p.have[k as int] && q.partial.contains_key(k) == p.partial.contains_key(k)
                && q.partial[k] == p.partial[k]
            &&& match p.fate(i, begin, data) {
                Fate::Complete(buf) => {
                    let right = sha1_digest(buf) == p.hashes[i as int];
                    &&& q.state[i as int] == if right {
                        PieceState::Have
                    } else {
                        PieceState::Missing
                    }
                    &&& q.have[i as int] == right
                    &&& !q.partial.contains_key(i)
                    &&& q.completed == p.completed + (if right {
                        1int
                    } else {
                        0
                    }) - (if p.state[i as int] is Have {
                        1int
                    } else {
                        0
                    })
                },
                Fate::Assembling(a) => q.state == p.state && q.have == p.have && q.completed
                    == p.completed && q.partial.contains_key(i) && q.partial[i] == a,
                _ => q == p,
            }
            &&& q.availability == p.availability
            &&& q.hashes == p.hashes
        }),
{
}

/// The weight of the bit for a piece in its byte: the first piece has the highest.
pub open spec fn weight(p: int) -> int {
    if p % 8 == 0 {
        128
    } else if p % 8 == 1 {
        64
    } else if p % 8 == 2 {
        32
    } else if p % 8 == 3 {
        16
    } else if p % 8 == 4 {
        8
    } else if p % 8 == 5 {
        4
    } else if p % 8 == 6 {
        2
    } else {
        1
    }
}

/// Eight pieces share a byte, the first of them in its highest bit.
pub proof fn first_pieces_have_high_bits(bf: Bitfield, p: int)
    requires
        bf.well_formed(),
        0 <= p < bf.num_pieces,
    ensures
        bf@.len() == bf.num_pieces,
        holds(bf@, p) <==> (bf.bits@[p / 8] as int / weight(p)) % 2 == 1,
{
    let byte = bf.bits@[p / 8];
    bits_of_byte(byte);
    assert(holds(bf@, p) == bit(bf.bits@, p));
}

proof fn bits_of_byte(byte: u8)
    ensures
        byte & (1u8 << 7u8) != 0 <==> (byte / 128) % 2 == 1,
        byte & (1u8 << 6u8) != 0 <==> (byte / 64) % 2 == 1,
        byte & (1u8 << 5u8) != 0 <==> (byte / 32) % 2 == 1,
        byte & (1u8 << 4u8) != 0 <==> (byte / 16) % 2 == 1,
        byte & (1u8 << 3u8) != 0 <==> (byte / 8) % 2 == 1,
        byte & (1u8 << 2u8) != 0 <==> (byte / 4) % 2 == 1,
        byte & (1u8 << 1u8) != 0 <==> (byte / 2) % 2 == 1,
        byte & (1u8 << 0u8) != 0 <==> (byte / 1) % 2 == 1,
{
    assert(byte & (1u8 << 7u8) != 0 <==> (byte / 128) % 2 == 1) by (bit_vector);
    assert(byte & (1u8 << 6u8) != 0 <==> (byte / 64) % 2 == 1) by (bit_vector);
    assert(byte & (1u8 << 5u8) != 0 <==> (byte / 32) % 2 == 1) by (bit_vector);
    assert(byte & (1u8 << 4u8) != 0 <==> (byte / 16) % 2 == 1) by (bit_vector);
    assert(byte & (1u8 << 3u8) != 0 <==> (byte / 8) % 2 == 1) by (bit_vector);
    assert(byte & (1u8 << 2u8) != 0 <==> (byte / 4) % 2 == 1) by (bit_vector);
    assert(byte & (1u8 << 1u8) != 0 <==> (byte / 2) % 2 == 1) by (bit_vector);
    assert(byte & (1u8 << 0u8) != 0 <==> (byte / 1) % 2 == 1) by (bit_vector);
}

/// A set that is read from bytes holds a piece exactly if its bit is set in them, as long as
/// there is a byte for it.
pub proof fn sets_are_read_from_bytes(bf: Bitfield, bytes: Seq<u8>, num: int, p: int)
    requires
        bf.read_from(bytes, num),
        bytes.len() * 8 >= num,
        bytes.len() * 8 < num + 8,
        0 <= p < num,
    ensures
        holds(bf@, p) <==> (bytes[p / 8] as int / weight(p)) % 2 == 1,
{
    bits_of_byte(bytes[p / 8]);
    assert(holds(bf@, p) == bit(bf.bits@, p));
}

/// The pieces are seen as they are kept.
pub proof fn pieces_are_seen_as_they_are(pm: PieceManager)
    ensures
        pm@.piece_length == pm.piece_length,
        pm@.total_length == pm.total_length,
        pm@.state == pm.state@,
        pm@.availability == pm.availability@,
        pm@.completed == pm.completed_count,
        pm@.hashes.len() == pm.hashes@.len(),
        forall|i: int| 0 <= i < pm.hashes@.len() ==> #[trigger] pm@.hashes[i] == pm.hashes@[i]@,
        pm@.have.len() == pm.have_bitfield.num_pieces,
        forall|i: u32| #[trigger]
            pm@.partial.contains_key(i) <==> pm.partial@.contains_key(i),
        forall|i: u32|
            pm.partial@.contains_key(i) ==> {
                &&& #[trigger] pm@.partial[i].buf == pm.partial@[i].buf@
                &&& pm@.partial[i].left == pm.partial@[i].blocks_left
                &&& pm@.partial[i].received == pm.partial@[i].received@
            },
{
}

} // verus!
