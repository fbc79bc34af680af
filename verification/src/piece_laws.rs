//! What holds of pieces and blocks as a whole.

use vstd::prelude::*;

use crate::digest::sha1_digest;
use crate::piece::{
    choices_are_candidates, groups, holds, kept, settled_valid, tally, tally_bounded,
    tally_none, tally_update, Bitfield, PieceState, BLOCK_SIZE,
};
use crate::pieces::{haves, min, Assembly, Fate, Pieces};

verus! {

/// The blocks of a piece follow each other from its start to its end, and none is empty.
pub proof fn blocks_tile_piece(p: Pieces, i: u32, b: int)
    requires
        0 <= b < p.blocks(i as int),
    ensures
        p.block(i, b).index == i,
        p.block(i, b).begin == b * BLOCK_SIZE,
        0 < p.block(i, b).length <= BLOCK_SIZE,
        p.block(i, b).begin + p.block(i, b).length == if b + 1 < p.blocks(i as int) {
            (b + 1) * BLOCK_SIZE
        } else {
            p.len(i as int) as int
        },
{
}

/// A piece ends where the next one starts, and the last one ends with the torrent.
pub proof fn pieces_tile_torrent(p: Pieces, i: int)
    requires
        0 < p.piece_length,
        0 <= i,
        p.start(i) <= p.total_length,
    ensures
        p.start(0) == 0,
        p.start(i) + p.size(i) == min(p.start(i + 1), p.total_length),
        0 <= p.size(i) <= p.piece_length,
{
    assert((i + 1) * p.piece_length == i * p.piece_length + p.piece_length) by (nonlinear_arith);
    assert(0 * p.piece_length == 0) by (nonlinear_arith);
}

/// No more is downloaded than the torrent is long.
pub proof fn downloaded_fits(p: Pieces, k: int)
    requires
        p.valid(),
        0 <= k <= p.state.len(),
        k <= 0x1_0000_0000,
    ensures
        0 <= p.downloaded(k) <= p.total_length,
        k >= 0 ==> p.downloaded(k) <= p.start(k),
    decreases k,
{
    if k > 0 {
        downloaded_fits(p, k - 1);
        assert(((k - 1) + 1) * p.piece_length == (k - 1) * p.piece_length + p.piece_length)
            by (nonlinear_arith);
        let t = ((k - 1) as u32) as int;
        assert(t == k - 1);
        if p.state[k - 1] is Have {
            assert(p.covers(k - 1));
            truncation(p.size(k - 1) as u64);
            assert(p.len(t) <= p.size(k - 1));
        }
    } else {
        assert(0 * p.piece_length == 0) by (nonlinear_arith);
    }
}

/// The low 32 bits of a number are no more than the number.
proof fn truncation(n: u64)
    ensures
        (n as u32) <= n,
{
    assert((n as u32) <= n) by (bit_vector);
}

/// When every piece is there, all of the torrent is downloaded.
pub proof fn all_is_downloaded(p: Pieces, k: int)
    requires
        p.valid(),
        0 <= k <= p.state.len(),
        k <= 0x1_0000_0000,
        p.piece_length <= u32::MAX,
        forall|i: int| 0 <= i < p.state.len() ==> (#[trigger] p.state[i]) is Have,
    ensures
        p.downloaded(k) == min(p.start(k), p.total_length),
    decreases k,
{
    if k > 0 {
        all_is_downloaded(p, k - 1);
        assert(((k - 1) + 1) * p.piece_length == (k - 1) * p.piece_length + p.piece_length)
            by (nonlinear_arith);
        assert(p.state[k - 1] is Have);
        assert(p.covers(k - 1));
    } else {
        assert(0 * p.piece_length == 0) by (nonlinear_arith);
    }
}

/// All pieces are there exactly if as many are there as there are.
pub proof fn all_there(state: Seq<PieceState>)
    ensures
        haves(state) <= state.len(),
        haves(state) == state.len() <==> forall|i: int|
            0 <= i < state.len() ==> (#[trigger] state[i]) is Have,
    decreases state.len(),
{
    if state.len() > 0 {
        let first = state.drop_last();
        all_there(first);
        if haves(state) == state.len() {
            assert forall|i: int| 0 <= i < state.len() implies (#[trigger] state[i]) is Have by {
                if i < first.len() {
                    assert(first[i] is Have);
                }
            }
        }
        if forall|i: int| 0 <= i < state.len() ==> (#[trigger] state[i]) is Have {
            assert forall|i: int| 0 <= i < first.len() implies (#[trigger] first[i]) is Have by {
                assert(state[i] is Have);
            }
            assert(state[state.len() - 1] is Have);
        }
    }
}

/// A download is complete exactly if every piece is there, the count of complete pieces is how
/// many are there, and the pieces that are marked as there are those that are.
pub proof fn complete_means_all_there(p: Pieces)
    requires
        p.valid(),
    ensures
        p.completed == p.hashes.len() <==> forall|i: int|
            0 <= i < p.state.len() ==> (#[trigger] p.state[i]) is Have,
        p.completed == haves(p.state),
        forall|i: int| #[trigger] holds(p.have, i) <==> p.state_of(i) is Have,
{
    all_there(p.state);
    assert forall|i: int| #[trigger] holds(p.have, i) <==> p.state_of(i) is Have by {
        if 0 <= i < p.state.len() {
            assert(p.have[i] <==> p.state[i] is Have);
        }
    }
}

/// A right copy of a piece that is there changes neither what is there nor how much is counted.
pub proof fn right_copies_count_once(p: Pieces, i: u32, begin: u32, data: Seq<u8>)
    requires
        p.valid(),
        p.state_of(i as int) is Have,
        p.fate(i, begin, data) matches Fate::Complete(buf) && sha1_digest(buf) == p.hashes[i as int],
    ensures
        p.after_block(i, begin, data) == (Pieces { partial: p.partial.remove(i), ..p }),
{
    assert(p.state.update(i as int, PieceState::Have) =~= p.state);
    assert(p.have[i as int]);
    assert(p.have.update(i as int, true) =~= p.have);
}

/// The bytes of a complete piece are as many as the piece is long.
pub proof fn whole_buffer(p: Pieces, i: u32, begin: u32, data: Seq<u8>)
    requires
        p.valid(),
        p.covers(i as int),
        p.fate(i, begin, data) is Complete,
    ensures
        p.fate(i, begin, data)->Complete_0.len() == p.len(i as int),
        p.piece_length <= u32::MAX ==> p.len(i as int) == p.size(i as int),
{
    if p.partial.contains_key(i) {
        assert(p.fits(i, p.partial[i]));
    }
}

/// A piece is there only once its bytes have the digest that the torrent gives for it.
pub proof fn only_verified_pieces_are_there(p: Pieces, i: u32, begin: u32, data: Seq<u8>, k: int)
    requires
        p.valid(),
        i < p.state.len(),
        0 <= k < p.state.len(),
        p.state[k] !is Have,
        p.after_block(i, begin, data).state[k] is Have,
    ensures
        k == i,
        p.fate(i, begin, data) matches Fate::Complete(buf) && sha1_digest(buf) == p.hashes[i as int],
{
}

/// A corrupt piece is missing again, and all of its blocks are needed again.
pub proof fn corrupt_piece_starts_over(p: Pieces, i: u32, begin: u32, data: Seq<u8>)
    requires
        p.valid(),
        i < p.state.len(),
        p.fate(i, begin, data) matches Fate::Complete(buf) && sha1_digest(buf)
            != p.hashes[i as int],
    ensures
        p.after_block(i, begin, data).state[i as int] is Missing,
        p.after_block(i, begin, data).assembly(i) == p.fresh(i),
        p.after_block(i, begin, data).needed(i) == Seq::new(
            p.blocks(i as int) as nat,
            |b: int| p.block(i, b),
        ),
{
    let q = p.after_block(i, begin, data);
    assert(q.assembly(i) =~= p.fresh(i));
    all_outstanding(q, i, p.blocks(i as int));
    assert(q.needed(i) =~= Seq::new(p.blocks(i as int) as nat, |b: int| p.block(i, b)));
}

proof fn all_outstanding(p: Pieces, i: u32, k: int)
    requires
        0 <= k <= p.blocks(i as int),
        !p.partial.contains_key(i),
    ensures
        p.outstanding(i, k) == Seq::new(k as nat, |b: int| p.block(i, b)),
    decreases k,
{
    if k > 0 {
        all_outstanding(p, i, k - 1);
    }
    assert(p.outstanding(i, k) =~= Seq::new(k as nat, |b: int| p.block(i, b)));
}

/// As many blocks are needed as are left.
pub proof fn needed_are_left(p: Pieces, i: u32)
    requires
        p.valid(),
    ensures
        p.needed(i).len() == p.assembly(i).left,
{
    let flags = p.assembly(i).received;
    tally_none(p.fresh(i).received);
    assert(flags.take(flags.len() as int) =~= flags);
    outstanding_counts(p, i, p.blocks(i as int));
}

proof fn outstanding_counts(p: Pieces, i: u32, k: int)
    requires
        0 <= k <= p.assembly(i).received.len(),
    ensures
        p.outstanding(i, k).len() == k - tally(p.assembly(i).received.take(k)),
    decreases k,
{
    let flags = p.assembly(i).received;
    if k > 0 {
        outstanding_counts(p, i, k - 1);
        assert(flags.take(k).drop_last() =~= flags.take(k - 1));
        assert(flags.take(k).last() == flags[k - 1]);
    }
}

/// What is needed are the blocks that have not been received.
pub proof fn needed_are_missing(p: Pieces, i: u32, k: int)
    requires
        0 <= k <= p.blocks(i as int),
    ensures
        forall|r: int|
            #![trigger p.outstanding(i, k)[r]]
            0 <= r < p.outstanding(i, k).len() ==> exists|b: int|
                0 <= b < k && !#[trigger] p.assembly(i).received[b] && p.outstanding(i, k)[r]
                    == p.block(i, b),
    decreases k,
{
    if k > 0 {
        needed_are_missing(p, i, k - 1);
        let before = p.outstanding(i, k - 1);
        let now = p.outstanding(i, k);
        assert forall|r: int| #![trigger now[r]] 0 <= r < now.len() implies exists|b: int|
            0 <= b < k && !#[trigger] p.assembly(i).received[b] && now[r] == p.block(i, b) by {
            if r < before.len() {
                assert(now[r] == before[r]);
                let b = choose|b: int|
                    0 <= b < k - 1 && !#[trigger] p.assembly(i).received[b] && before[r] == p.block(
                        i,
                        b,
                    );
                assert(!p.assembly(i).received[b]);
            } else {
                assert(!p.assembly(i).received[k - 1]);
            }
        }
    }
}

/// Where block `b` ends.
pub open spec fn block_end(p: Pieces, i: int, b: int) -> int {
    min((b + 1) * BLOCK_SIZE, p.len(i) as int)
}

/// Whether every block that was received holds what `data` holds there.
pub open spec fn agrees(p: Pieces, i: u32, a: Assembly, data: Seq<u8>) -> bool {
    &&& data.len() == p.len(i as int)
    &&& p.fits(i, a)
    &&& forall|b: int, k: int|
        0 <= b < a.received.len() && #[trigger] a.received[b] && b * BLOCK_SIZE <= k < block_end(
            p,
            i as int,
            b,
        ) ==> #[trigger] a.buf[k] == data[k]
}

/// A piece without any block agrees with everything.
pub proof fn fresh_agrees(p: Pieces, i: u32, data: Seq<u8>)
    requires
        data.len() == p.len(i as int),
    ensures
        agrees(p, i, p.fresh(i), data),
{
    tally_none(p.fresh(i).received);
}

/// Blocks put the piece together in whatever order they come: a right block keeps what is
/// there right, and with the last one the piece is complete and right.
pub proof fn right_blocks_make_right_piece(p: Pieces, i: u32, b: int, data: Seq<u8>)
    requires
        p.valid(),
        agrees(p, i, p.assembly(i), data),
        0 <= b < p.blocks(i as int),
    ensures
        ({
            let begin = p.block(i, b).begin;
            let part = data.subrange(b * BLOCK_SIZE, block_end(p, i as int, b));
            match p.fate(i, begin, part) {
                Fate::Bad => false,
                Fate::Duplicate => p.assembly(i).received[b],
                Fate::Assembling(a) => agrees(p, i, a, data),
                Fate::Complete(buf) => buf == data,
            }
        }),
{
    let a = p.assembly(i);
    let begin = p.block(i, b).begin;
    let end = block_end(p, i as int, b);
    let part = data.subrange(b * BLOCK_SIZE, end);
    blocks_tile_piece(p, i, b);
    assert(begin as int / BLOCK_SIZE as int == b);
    if !a.received[b] {
        let after = a.filled(begin as int, part, b);
        tally_update(a.received, b);
        assert(after.buf.len() == a.buf.len());
        assert forall|c: int, k: int|
            0 <= c < after.received.len() && #[trigger] after.received[c] && c * BLOCK_SIZE <= k
                < block_end(p, i as int, c) implies #[trigger] after.buf[k] == data[k] by {
            if begin <= k < end {
                assert(after.buf[k] == part[k - begin]);
            } else {
                assert(c != b);
                assert(a.received[c]);
                assert(after.buf[k] == a.buf[k]);
            }
        }
        assert(agrees(p, i, after, data));
        if after.left == 0 {
            full_tally(after.received);
            assert forall|k: int| 0 <= k < data.len() implies #[trigger] after.buf[k] == data[k] by {
                let c = k / BLOCK_SIZE as int;
                assert(after.received[c]);
            }
            assert(after.buf =~= data);
        }
    }
}

/// As many are counted as there are exactly if all are set.
pub proof fn full_tally(flags: Seq<bool>)
    ensures
        tally(flags) >= flags.len() <==> forall|i: int| 0 <= i < flags.len() ==> flags[i],
    decreases flags.len(),
{
    if flags.len() > 0 {
        let first = flags.drop_last();
        tally_bounded(first);
        full_tally(first);
        if tally(flags) >= flags.len() {
            assert forall|i: int| 0 <= i < flags.len() implies flags[i] by {
                if i < first.len() {
                    assert(first[i]);
                }
            }
        }
        if forall|i: int| 0 <= i < flags.len() ==> flags[i] {
            assert forall|i: int| 0 <= i < first.len() implies first[i] by {
                assert(flags[i]);
            }
            assert(flags[flags.len() - 1]);
        }
    }
}

/// A block that came before changes nothing.
pub proof fn duplicates_change_nothing(p: Pieces, i: u32, begin: u32, data: Seq<u8>)
    requires
        p.fate(i, begin, data) is Duplicate || p.fate(i, begin, data) is Bad,
    ensures
        p.after_block(i, begin, data) == p,
{
}

/// An abandoned piece keeps its blocks, and reclaiming it undoes the abandoning.
pub proof fn reclaiming_undoes_abandoning(p: Pieces, i: u32)
    requires
        p.valid(),
        p.state_of(i as int) is InFlight,
    ensures
        p.abandoned(i as int).reclaimed(i as int) == p,
        p.abandoned(i as int).assembly(i) == p.assembly(i),
{
    assert(p.abandoned(i as int).reclaimed(i as int) =~= p);
    assert(p.abandoned(i as int).assembly(i) =~= p.assembly(i));
}

/// When a peer leaves, the availability is what it was before the peer came, unless a counter
/// was at its most.
pub proof fn leaving_undoes_joining(p: Pieces, peer: Seq<bool>)
    requires
        forall|i: int|
            0 <= i < p.availability.len() && holds(peer, i) ==> (#[trigger] p.availability[i])
                < u16::MAX,
    ensures
        (Pieces { availability: p.joined(peer), ..p }).departed(peer) == p.availability,
{
    assert((Pieces { availability: p.joined(peer), ..p }).departed(peer) =~= p.availability);
}

/// What is picked is missing, is a piece that the peer has, and once the first few pieces are
/// complete, no missing piece of the peer is rarer.
pub proof fn pick_is_rarest(p: Pieces, peer: Seq<bool>, i: u32, j: u32)
    requires
        p.valid(),
        p.choices(peer).contains(i),
        p.candidates(peer).contains(j),
    ensures
        p.candidates(peer).contains(i),
        p.state[i as int] is Missing,
        holds(peer, i as int),
        p.completed >= 4 ==> p.availability[i as int] <= p.availability[j as int],
{
    choices_are_candidates(p, peer);
    if p.completed >= 4 {
        let all = p.candidates(peer);
        let pred = |x: u32| p.rarest(all, x);
        broadcast use vstd::seq_lib::group_filter_ensures;

        let k = choose|k: int| 0 <= k < p.choices(peer).len() && p.choices(peer)[k] == i;
        assert(pred(all.filter(pred)[k]));
        assert(p.rarest(all, i));
        assert(p.availability[j as int] == p.availability[j as int]);
    }
}

/// The candidates are exactly the missing pieces that the peer has.
pub proof fn candidates_are_missing(p: Pieces, peer: Seq<bool>, i: u32)
    requires
        p.valid(),
        p.hashes.len() <= u32::MAX,
    ensures
        p.candidates(peer).contains(i) <==> i < p.hashes.len() && p.state[i as int] is Missing
            && holds(peer, i as int),
{
    choices_are_candidates(p, peer);
    wanted_has(p, peer, i, p.hashes.len() as int);
}

proof fn wanted_has(p: Pieces, peer: Seq<bool>, i: u32, k: int)
    requires
        0 <= k <= u32::MAX,
    ensures
        i < k && p.state[i as int] is Missing && holds(peer, i as int) ==> p.wanted(
            peer,
            k,
        ).contains(i),
    decreases k,
{
    if k > 0 {
        wanted_has(p, peer, i, k - 1);
        let before = p.wanted(peer, k - 1);
        let now = p.wanted(peer, k);
        if i < k && p.state[i as int] is Missing && holds(peer, i as int) {
            if i == k - 1 {
                assert(now[now.len() - 1] == i);
            } else {
                let r = choose|r: int| 0 <= r < before.len() && before[r] == i;
                assert(now[r] == i);
            }
        }
    }
}

/// A set that is read from the bytes of a set is the same set, and no bit beyond its pieces is
/// set.
pub proof fn bytes_give_set_back(bf: Bitfield, p: int)
    requires
        bf.bits@.len() == groups(bf.num_pieces as int, 8),
        0 <= p < 8 * bf.bits@.len(),
    ensures
        kept(bf.bits@, bf.num_pieces as int, p) == holds(bf@, p),
{
}

/// Everything about the pieces still fits together after a block.
pub proof fn after_block_valid(p: Pieces, i: u32, begin: u32, data: Seq<u8>)
    requires
        p.valid(),
        p.takes(i, begin, data),
    ensures
        p.after_block(i, begin, data).valid(),
{
    let a = p.assembly(i);
    tally_none(p.fresh(i).received);
    if p.partial.contains_key(i) {
        assert(p.fits(i, p.partial[i]));
    }
    assert(p.fits(i, a));
    let fate = p.fate(i, begin, data);
    let block = begin as int / BLOCK_SIZE as int;
    match fate {
        Fate::Assembling(b) => {
            tally_update(a.received, block);
            assert(p.fits(i, b));
            partial_valid(p, p.partial.insert(i, b));
        },
        Fate::Complete(buf) => {
            partial_valid(p, p.partial.remove(i));
            settled_valid(
                p.accepted(i, fate),
                i as int,
                sha1_digest(buf) == p.hashes[i as int],
            );
        },
        _ => {},
    }
}

proof fn partial_valid(p: Pieces, partial: Map<u32, Assembly>)
    requires
        p.valid(),
        forall|k: u32| #[trigger] partial.contains_key(k) ==> p.covers(k as int) && p.fits(k, partial[k]),
    ensures
        (Pieces { partial, ..p }).valid(),
{
    let q = Pieces { partial, ..p };
    assert forall|k: int| 0 <= k < q.state.len() implies (#[trigger] q.have[k] <==> q.state[k] is Have) by {
        assert(p.have[k] <==> p.state[k] is Have);
    }
    assert forall|k: int| 0 <= k < q.state.len() && (#[trigger] q.state[k]) is Have implies q.covers(
        k,
    ) by {
        assert(p.state[k] is Have);
        assert(p.covers(k));
    }
    assert forall|k: u32| #[trigger] q.partial.contains_key(k) implies q.covers(k as int) && q.fits(
        k,
        q.partial[k],
    ) by {
        assert(p.covers(k as int) && p.fits(k, partial[k]));
    }
}

} // verus!
