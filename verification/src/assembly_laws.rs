//! That blocks put a piece together in whatever order they come.

use vstd::prelude::*;

use crate::digest::sha1_digest;
use crate::piece::{tally_none, tally_update, BLOCK_SIZE};
use crate::piece_laws::{
    after_block_valid, agrees, block_end, blocks_tile_piece, duplicates_change_nothing, full_tally,
    right_blocks_make_right_piece,
};
use crate::pieces::{Fate, Pieces};

verus! {

/// Bytes that are delivered as part of a piece.
pub struct Delivery {
    pub begin: u32,
    pub bytes: Seq<u8>,
}

impl Delivery {
    /// The block that the bytes are for.
    pub open spec fn block(self) -> int {
        self.begin as int / BLOCK_SIZE as int
    }
}

/// Whether one of the deliveries is for block `b`.
pub open spec fn came(run: Seq<Delivery>, b: int) -> bool {
    exists|j: int| 0 <= j < run.len() && (#[trigger] run[j]).block() == b
}

/// The pieces after deliveries of blocks of piece `i`, one after another.
pub open spec fn delivered(p: Pieces, i: u32, run: Seq<Delivery>) -> Pieces
    decreases run.len(),
{
    if run.len() == 0 {
        p
    } else {
        delivered(p, i, run.drop_last()).after_block(i, run.last().begin, run.last().bytes)
    }
}

/// What becomes of delivery `k` of a run.
pub open spec fn fate_of(p: Pieces, i: u32, run: Seq<Delivery>, k: int) -> Fate {
    delivered(p, i, run.take(k)).fate(i, run[k].begin, run[k].bytes)
}

/// Whether delivery `k` of a run brings a block of `data` or repeats a block that came before in
/// the run, with whatever bytes fit.
pub open spec fn orderly(p: Pieces, i: u32, data: Seq<u8>, run: Seq<Delivery>, k: int) -> bool {
    let d = run[k];
    let b = d.block();
    &&& d.begin + d.bytes.len() <= p.len(i as int)
    &&& b < p.blocks(i as int)
    &&& came(run.take(k), b) || (d.begin == b * BLOCK_SIZE && d.bytes == data.subrange(
        b * BLOCK_SIZE,
        block_end(p, i as int, b),
    ))
}

/// Whether a run of deliveries brings every block of `data`, in any order, the last of them last.
pub open spec fn brings(p: Pieces, i: u32, data: Seq<u8>, run: Seq<Delivery>) -> bool {
    &&& run.len() > 0
    &&& forall|k: int| 0 <= k < run.len() ==> #[trigger] orderly(p, i, data, run, k)
    &&& forall|b: int| 0 <= b < p.blocks(i as int) ==> #[trigger] came(run, b)
    &&& exists|b: int| 0 <= b < p.blocks(i as int) && !#[trigger] came(run.drop_last(), b)
}

/// Blocks put a piece together in whatever order they come: every delivery but the last leaves
/// the piece in the making, a repeated block changes nothing whatever its bytes, and the last
/// gives the bytes of the piece, which is there from then on.
pub proof fn blocks_may_come_in_any_order(p: Pieces, i: u32, data: Seq<u8>, run: Seq<Delivery>)
    requires
        p.valid(),
        p.covers(i as int),
        i < p.hashes.len(),
        data.len() == p.len(i as int),
        sha1_digest(data) == p.hashes[i as int],
        forall|b: int| 0 <= b < p.blocks(i as int) ==> !p.assembly(i).received[b],
        brings(p, i, data, run),
    ensures
        forall|k: int|
            0 <= k < run.len() - 1 ==> match #[trigger] fate_of(p, i, run, k) {
                Fate::Assembling(_) => !came(run.take(k), run[k].block()),
                Fate::Duplicate => came(run.take(k), run[k].block()) && delivered(
                    p,
                    i,
                    run.take(k + 1),
                ) == delivered(p, i, run.take(k)),
                _ => false,
            },
        fate_of(p, i, run, run.len() - 1) == Fate::Complete(data),
        delivered(p, i, run).valid(),
        delivered(p, i, run).state_of(i as int) is Have,
        forall|k: int|
            0 <= k < run.len() ==> delivered(p, i, #[trigger] run.take(k)).takes(
                i,
                run[k].begin,
                run[k].bytes,
            ),
{
    assert forall|k: int| 0 <= k < run.len() - 1 implies match #[trigger] fate_of(p, i, run, k) {
        Fate::Assembling(_) => !came(run.take(k), run[k].block()),
        Fate::Duplicate => came(run.take(k), run[k].block()) && delivered(p, i, run.take(k + 1))
            == delivered(p, i, run.take(k)),
        _ => false,
    } by {
        first_deliveries(p, i, data, run, k);
        next_delivery(p, i, data, run, k);
    }
    assert forall|k: int| 0 <= k < run.len() implies delivered(p, i, #[trigger] run.take(k)).takes(
        i,
        run[k].begin,
        run[k].bytes,
    ) by {
        first_deliveries(p, i, data, run, k);
        assert(orderly(p, i, data, run, k));
    }
    let last = run.len() - 1;
    let q = delivered(p, i, run.take(last));
    let d = run[last];
    let b = d.block();
    first_deliveries(p, i, data, run, last);
    assert(run.take(last) =~= run.drop_last());
    assert(orderly(p, i, data, run, last));
    let missing = choose|c: int| 0 <= c < p.blocks(i as int) && !#[trigger] came(run.drop_last(), c);
    one_more(run, last, missing);
    assert(run.take(last + 1) =~= run);
    assert(came(run, missing));
    assert(b == missing);
    blocks_tile_piece(q, i, b);
    right_blocks_make_right_piece(q, i, b, data);
    let after = q.assembly(i).filled(d.begin as int, d.bytes, b);
    assert forall|c: int| 0 <= c < after.received.len() implies after.received[c] by {
        if c != b {
            one_more(run, last, c);
            assert(came(run, c));
        }
    }
    full_tally(after.received);
    tally_update(q.assembly(i).received, b);
    after_block_valid(q, i, d.begin, d.bytes);
}

/// What came with one more delivery.
proof fn one_more(run: Seq<Delivery>, k: int, b: int)
    requires
        0 <= k < run.len(),
    ensures
        came(run.take(k + 1), b) <==> came(run.take(k), b) || run[k].block() == b,
{
    let now = run.take(k + 1);
    let before = run.take(k);
    if came(now, b) {
        let j = choose|j: int| 0 <= j < now.len() && (#[trigger] now[j]).block() == b;
        if j < k {
            assert(before[j] == now[j]);
        }
    }
    if came(before, b) {
        let j = choose|j: int| 0 <= j < before.len() && (#[trigger] before[j]).block() == b;
        assert(now[j] == before[j]);
    }
    if run[k].block() == b {
        assert(now[k] == run[k]);
    }
}

/// What came early in a run came in more of it.
proof fn still_came(run: Seq<Delivery>, k: int, n: int, b: int)
    requires
        0 <= k <= n <= run.len(),
        came(run.take(k), b),
    ensures
        came(run.take(n), b),
{
    let before = run.take(k);
    let j = choose|j: int| 0 <= j < before.len() && (#[trigger] before[j]).block() == b;
    assert(run.take(n)[j] == before[j]);
}

/// Whether a piece is as far put together as the first `k` deliveries bring it.
spec fn underway(p: Pieces, i: u32, data: Seq<u8>, run: Seq<Delivery>, k: int) -> bool {
    let q = delivered(p, i, run.take(k));
    &&& q.valid()
    &&& q.same_torrent(p)
    &&& agrees(q, i, q.assembly(i), data)
    &&& forall|b: int|
        0 <= b < p.blocks(i as int) ==> (#[trigger] q.assembly(i).received[b] <==> came(
            run.take(k),
            b,
        ))
}

proof fn first_deliveries(p: Pieces, i: u32, data: Seq<u8>, run: Seq<Delivery>, k: int)
    requires
        p.valid(),
        p.covers(i as int),
        i < p.hashes.len(),
        data.len() == p.len(i as int),
        forall|b: int| 0 <= b < p.blocks(i as int) ==> !p.assembly(i).received[b],
        brings(p, i, data, run),
        0 <= k < run.len(),
    ensures
        underway(p, i, data, run, k),
    decreases k,
{
    if k > 0 {
        first_deliveries(p, i, data, run, k - 1);
        next_delivery(p, i, data, run, k - 1);
    } else {
        assert(run.take(0).len() == 0);
        if p.partial.contains_key(i) {
            assert(p.fits(i, p.partial[i]));
        } else {
            tally_none(p.fresh(i).received);
        }
        assert forall|b: int| 0 <= b < p.blocks(i as int) implies (#[trigger] p.assembly(
            i,
        ).received[b] <==> came(run.take(0), b)) by {}
    }
}

proof fn next_delivery(p: Pieces, i: u32, data: Seq<u8>, run: Seq<Delivery>, k: int)
    requires
        p.covers(i as int),
        i < p.hashes.len(),
        data.len() == p.len(i as int),
        brings(p, i, data, run),
        0 <= k < run.len() - 1,
        underway(p, i, data, run, k),
    ensures
        underway(p, i, data, run, k + 1),
        match fate_of(p, i, run, k) {
            Fate::Assembling(_) => !came(run.take(k), run[k].block()),
            Fate::Duplicate => came(run.take(k), run[k].block()) && delivered(
                p,
                i,
                run.take(k + 1),
            ) == delivered(p, i, run.take(k)),
            _ => false,
        },
{
    let q = delivered(p, i, run.take(k));
    let d = run[k];
    let b = d.block();
    let a = q.assembly(i);
    assert(orderly(p, i, data, run, k));
    assert(run.take(k + 1).drop_last() =~= run.take(k));
    assert(run.take(k + 1).last() == d);
    let r = delivered(p, i, run.take(k + 1));
    assert(r == q.after_block(i, d.begin, d.bytes));
    assert(a.received[b] <==> came(run.take(k), b));
    after_block_valid(q, i, d.begin, d.bytes);
    if came(run.take(k), b) {
        duplicates_change_nothing(q, i, d.begin, d.bytes);
    } else {
        blocks_tile_piece(q, i, b);
        right_blocks_make_right_piece(q, i, b, data);
        let after = a.filled(d.begin as int, d.bytes, b);
        let missing = choose|c: int|
            0 <= c < p.blocks(i as int) && !#[trigger] came(run.drop_last(), c);
        assert(run.take(run.len() - 1) =~= run.drop_last());
        assert(!after.received[missing]) by {
            one_more(run, k, missing);
            if came(run.take(k + 1), missing) {
                still_came(run, k + 1, run.len() - 1, missing);
            }
        }
        tally_update(a.received, b);
        full_tally(after.received);
        assert(r.assembly(i) == after);
    }
    assert forall|c: int| 0 <= c < p.blocks(i as int) implies (#[trigger] r.assembly(i).received[c]
        <==> came(run.take(k + 1), c)) by {
        one_more(run, k, c);
    }
}

} // verus!
